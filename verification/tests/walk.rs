use quartz_engine::node::NodeId;
use quartz_engine::tree::Tree;

fn position(order: &[(Option<NodeId>, NodeId)], id: NodeId) -> usize {
    order.iter().position(|s| s.1 == id).expect("node missing from the walk")
}

#[test]
fn walk_visits_every_node_after_its_parent() {
    let mut tree: Tree<&str> = Tree::new();
    let a = tree.spawn("a");
    let b = tree.spawn("b");
    let a1 = tree.spawn_child("a1", a).unwrap();
    let a2 = tree.spawn_child("a2", a).unwrap();
    let a11 = tree.spawn_child("a11", a1).unwrap();
    assert!(tree.is_walkable());
    let order = tree.transform_order();
    assert_eq!(order.len(), 5);
    for (parent, id) in &order {
        match parent {
            None => assert!(*id == a || *id == b),
            Some(p) => {
                assert_eq!(tree.get_parent(*id), Some(*p));
                assert!(position(&order, *p) < position(&order, *id));
            }
        }
    }
    assert!(order.contains(&(Some(a), a1)));
    assert!(order.contains(&(Some(a), a2)));
    assert!(order.contains(&(Some(a1), a11)));
    assert!(order.contains(&(None, b)));
}

#[test]
fn walk_skips_a_taken_node_and_its_subtree() {
    let mut tree: Tree<&str> = Tree::new();
    let a = tree.spawn("a");
    let a1 = tree.spawn_child("a1", a).unwrap();
    let _a11 = tree.spawn_child("a11", a1).unwrap();
    let b = tree.spawn("b");
    let guard = tree.get_node(a1).unwrap();
    let order = tree.transform_order();
    assert_eq!(order.len(), 2);
    assert!(order.contains(&(None, a)));
    assert!(order.contains(&(None, b)));
    tree.restore(guard);
    assert_eq!(tree.transform_order().len(), 4);
}

#[test]
fn walk_leaves_out_a_cycle_cut_off_from_the_roots() {
    let mut tree: Tree<&str> = Tree::new();
    let a = tree.spawn("a");
    let a1 = tree.spawn_child("a1", a).unwrap();
    let a11 = tree.spawn_child("a11", a1).unwrap();
    let b = tree.spawn("b");
    // Dropping a node onto its own descendant cuts it off from the roots.
    tree.set_parent(a, Some(a11));
    assert!(tree.is_walkable());
    assert_eq!(tree.transform_order(), vec![(None, b)]);
}

#[test]
fn empty_tree_walks_nothing() {
    let tree: Tree<u8> = Tree::new();
    assert!(tree.is_walkable());
    assert!(tree.transform_order().is_empty());
}

#[test]
fn tree_with_root_that_has_a_parent_is_not_walkable() {
    let tree: Tree<u8> = Tree::from_parts(
        vec![(NodeId(0), 0), (NodeId(1), 1)],
        vec![(NodeId(1), NodeId(0))],
        vec![(NodeId(0), vec![NodeId(1)]), (NodeId(1), vec![])],
        vec![NodeId(0), NodeId(1)],
    );
    assert!(tree.is_linked());
    assert!(!tree.is_walkable());
}

#[test]
fn tree_with_node_without_child_list_is_not_walkable() {
    let tree: Tree<u8> = Tree::from_parts(
        vec![(NodeId(0), 0)],
        vec![],
        vec![],
        vec![NodeId(0)],
    );
    assert!(!tree.is_walkable());
}
