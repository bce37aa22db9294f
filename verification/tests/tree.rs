use quartz_engine::node::NodeId;
use quartz_engine::tree::Tree;

fn sorted(mut v: Vec<NodeId>) -> Vec<u64> {
    let mut ids: Vec<u64> = v.drain(..).map(|n| n.0).collect();
    ids.sort();
    ids
}

#[test]
fn spawn_hands_out_increasing_ids() {
    let mut tree: Tree<&str> = Tree::new();
    let a = tree.spawn("a");
    let b = tree.spawn("b");
    assert_eq!(a, NodeId(0));
    assert_eq!(b, NodeId(1));
    assert_eq!(tree.len(), 2);
    assert_eq!(tree.get_parent(a), None);
    assert!(tree.get_children(a).is_empty());
    assert_eq!(tree.generate_id(), NodeId(2));
    assert_eq!(tree.spawn("c"), NodeId(3));
}

#[test]
fn spawn_child_links_both_ways() {
    let mut tree: Tree<&str> = Tree::new();
    let root = tree.spawn("root");
    let child = tree.spawn_child("child", root).unwrap();
    let second = tree.spawn_child("second", root).unwrap();
    assert_eq!(tree.get_parent(child), Some(root));
    assert_eq!(tree.get_children(root), &vec![child, second]);
    assert!(tree.is_linked());
}

#[test]
fn spawn_child_of_missing_parent_is_refused() {
    let mut tree: Tree<u8> = Tree::new();
    assert_eq!(tree.spawn_child(1, NodeId(9)), None);
    assert_eq!(tree.len(), 0);
}

#[test]
fn set_parent_moves_a_node() {
    let mut tree: Tree<u8> = Tree::new();
    let a = tree.spawn(0);
    let b = tree.spawn(1);
    let c = tree.spawn_child(2, a).unwrap();
    tree.set_parent(c, Some(b));
    assert_eq!(tree.get_parent(c), Some(b));
    assert!(tree.get_children(a).is_empty());
    assert_eq!(tree.get_children(b), &vec![c]);
    tree.set_parent(c, None);
    assert_eq!(tree.get_parent(c), None);
    assert!(tree.get_children(b).is_empty());
    assert!(tree.is_linked());
}

#[test]
fn set_parent_to_same_parent_moves_to_the_end() {
    let mut tree: Tree<u8> = Tree::new();
    let p = tree.spawn(0);
    let x = tree.spawn_child(1, p).unwrap();
    let y = tree.spawn_child(2, p).unwrap();
    tree.set_parent(x, Some(p));
    assert_eq!(tree.get_children(p), &vec![y, x]);
}

#[test]
fn remove_recursive_removes_the_subtree() {
    let mut tree: Tree<u8> = Tree::new();
    let root = tree.spawn(0);
    let keep = tree.spawn_child(1, root).unwrap();
    let gone = tree.spawn_child(2, root).unwrap();
    let grandchild = tree.spawn_child(3, gone).unwrap();
    let other = tree.spawn(4);
    assert_eq!(tree.remove_recursive(gone), Ok(()));
    assert_eq!(tree.len(), 3);
    assert!(!tree.contains(gone));
    assert!(!tree.contains(grandchild));
    assert!(tree.contains(keep));
    assert!(tree.contains(other));
    assert_eq!(tree.get_children(root), &vec![keep]);
    assert_eq!(tree.get_parent(grandchild), None);
    assert!(tree.is_linked());
    assert_eq!(sorted(tree.nodes()), vec![0, 1, 4]);
}

#[test]
fn remove_recursive_of_a_cycle_terminates() {
    let mut tree: Tree<u8> = Tree::new();
    let a = tree.spawn(0);
    let b = tree.spawn_child(1, a).unwrap();
    tree.set_parent(a, Some(b));
    assert_eq!(tree.remove_recursive(a), Ok(()));
    assert_eq!(tree.len(), 0);
}

#[test]
fn despawn_queues_in_order() {
    let mut tree: Tree<u8> = Tree::new();
    let a = tree.spawn(0);
    let b = tree.spawn(1);
    tree.despawn(b);
    tree.despawn(a);
    assert_eq!(tree.take_despawn(), vec![b, a]);
    assert!(tree.take_despawn().is_empty());
    assert_eq!(tree.len(), 2);
}

#[test]
fn get_node_takes_the_node_out_until_restored() {
    let mut tree: Tree<String> = Tree::new();
    let a = tree.spawn(String::from("node"));
    let guard = tree.get_node(a).unwrap();
    assert_eq!(guard.node, "node");
    assert_eq!(guard.id, a);
    assert!(tree.get_node(a).is_none());
    tree.restore(guard);
    let again = tree.get_node(a).unwrap();
    assert_eq!(again.node, "node");
    tree.restore(again);
    assert!(tree.get_node(NodeId(5)).is_none());
}

#[test]
fn restoring_a_removed_node_drops_it() {
    let mut tree: Tree<u8> = Tree::new();
    let a = tree.spawn(7);
    let guard = tree.get_node(a).unwrap();
    assert_eq!(tree.remove_recursive(a), Ok(()));
    tree.restore(guard);
    assert!(!tree.contains(a));
    assert_eq!(tree.len(), 0);
}

#[test]
fn nodes_lists_every_node_once() {
    let mut tree: Tree<u8> = Tree::new();
    for i in 0..10 {
        tree.spawn(i);
    }
    assert_eq!(sorted(tree.nodes()), (0..10).collect::<Vec<u64>>());
}

#[test]
fn from_parts_continues_after_the_largest_id() {
    let tree: Tree<u8> = Tree::from_parts(
        vec![(NodeId(4), 0), (NodeId(9), 1), (NodeId(2), 2)],
        vec![(NodeId(2), NodeId(9))],
        vec![(NodeId(9), vec![NodeId(2)]), (NodeId(4), vec![]), (NodeId(2), vec![])],
        vec![NodeId(4), NodeId(9)],
    );
    let mut tree = tree;
    assert_eq!(tree.len(), 3);
    assert_eq!(tree.get_parent(NodeId(2)), Some(NodeId(9)));
    assert_eq!(tree.get_children(NodeId(9)), &vec![NodeId(2)]);
    assert!(tree.is_linked());
    assert_eq!(tree.spawn(5), NodeId(10));
}

#[test]
fn from_parts_of_nothing_starts_at_zero() {
    let mut tree: Tree<u8> = Tree::from_parts(vec![], vec![], vec![], vec![]);
    assert_eq!(tree.spawn(1), NodeId(0));
}

#[test]
fn from_parts_later_entries_win() {
    let mut tree: Tree<u8> = Tree::from_parts(
        vec![(NodeId(1), 10), (NodeId(1), 20)],
        vec![(NodeId(1), NodeId(3)), (NodeId(1), NodeId(4))],
        vec![(NodeId(1), vec![])],
        vec![],
    );
    assert_eq!(tree.len(), 1);
    assert_eq!(tree.get_node(NodeId(1)).unwrap().node, 20);
    assert_eq!(tree.get_parent(NodeId(1)), Some(NodeId(4)));
}

#[test]
fn unlinked_tree_is_detected() {
    let mut tree: Tree<u8> = Tree::new();
    let a = tree.spawn(0);
    tree.set_parent(NodeId(77), Some(a));
    assert!(!tree.is_linked());
    assert!(!tree.has_child_list(NodeId(77)));
    assert!(tree.has_child_list(a));
}

#[test]
fn despawned_nodes_are_removed_in_turn() {
    let mut tree: Tree<&str> = Tree::new();
    let a = tree.spawn("a");
    let b = tree.spawn("b");
    let c = tree.spawn_child("c", a).unwrap();
    tree.despawn(a);
    tree.despawn(b);
    let queue = tree.take_despawn();
    assert_eq!(tree.remove_in_turn(&queue), Ok(()));
    assert_eq!(tree.len(), 0);
    assert!(!tree.contains(c));
}

#[test]
fn removal_stops_at_a_node_already_removed() {
    let mut tree: Tree<&str> = Tree::new();
    let a = tree.spawn("a");
    let c = tree.spawn_child("c", a).unwrap();
    let b = tree.spawn("b");
    assert_eq!(tree.remove_in_turn(&vec![a, c, b]), Err(c));
    assert!(!tree.contains(a));
    assert!(tree.contains(b));
    assert_eq!(tree.len(), 1);
}

#[test]
fn removal_follows_child_lists_where_links_disagree() {
    // Node 1 is listed as a child of 0 but has no parent link; 2 has a
    // parent link to 0 but is in no list.
    let mut tree: Tree<u8> = Tree::from_parts(
        vec![(NodeId(0), 0), (NodeId(1), 1), (NodeId(2), 2)],
        vec![(NodeId(2), NodeId(0))],
        vec![(NodeId(0), vec![NodeId(1)]), (NodeId(1), vec![]), (NodeId(2), vec![])],
        vec![NodeId(0), NodeId(1)],
    );
    assert!(!tree.is_linked());
    assert_eq!(tree.remove_recursive(NodeId(0)), Ok(()));
    assert!(!tree.contains(NodeId(0)));
    assert!(!tree.contains(NodeId(1)));
    assert!(tree.contains(NodeId(2)));
    assert_eq!(tree.get_parent(NodeId(2)), Some(NodeId(0)));
}

#[test]
fn removal_stops_at_a_listed_child_without_a_list() {
    let mut tree: Tree<u8> = Tree::from_parts(
        vec![(NodeId(0), 0), (NodeId(1), 1), (NodeId(2), 2)],
        vec![(NodeId(1), NodeId(0)), (NodeId(2), NodeId(0))],
        vec![(NodeId(0), vec![NodeId(1), NodeId(2)]), (NodeId(2), vec![])],
        vec![NodeId(0)],
    );
    assert_eq!(tree.remove_recursive(NodeId(0)), Err(NodeId(1)));
    assert!(!tree.contains(NodeId(0)));
    assert!(!tree.contains(NodeId(1)));
    assert!(tree.contains(NodeId(2)));
}

#[test]
fn removal_of_a_node_without_a_list_stops_at_once() {
    let mut tree: Tree<u8> = Tree::new();
    assert_eq!(tree.remove_recursive(NodeId(3)), Err(NodeId(3)));
    assert_eq!(tree.len(), 0);
}
