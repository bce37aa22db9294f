use quartz_engine::node::NodeId;
use quartz_engine::outline::shows_as_child;
use quartz_engine::tree::Tree;

#[test]
fn dropping_onto_a_node_makes_it_the_last_child() {
    let mut tree: Tree<&str> = Tree::new();
    let a = tree.spawn("a");
    let b = tree.spawn("b");
    let c = tree.spawn_child("c", a).unwrap();
    tree.drop_dragged(b, Some(a));
    assert_eq!(tree.get_parent(b), Some(a));
    assert_eq!(tree.get_children(a), &vec![c, b]);
    assert!(tree.is_walkable());
}

#[test]
fn dropping_onto_the_add_button_makes_a_root() {
    let mut tree: Tree<&str> = Tree::new();
    let a = tree.spawn("a");
    let c = tree.spawn_child("c", a).unwrap();
    tree.drop_dragged(c, None);
    assert_eq!(tree.get_parent(c), None);
    assert!(tree.get_children(a).is_empty());
    assert!(tree.base().contains(&c));
}

#[test]
fn dropping_a_node_onto_itself_does_nothing() {
    let mut tree: Tree<&str> = Tree::new();
    let a = tree.spawn("a");
    let c = tree.spawn_child("c", a).unwrap();
    tree.drop_dragged(c, Some(c));
    assert_eq!(tree.get_parent(c), Some(a));
    assert_eq!(tree.get_children(a), &vec![c]);
    assert!(tree.get_children(c).is_empty());
}

#[test]
fn add_button_spawns_under_the_selection() {
    let mut tree: Tree<&str> = Tree::new();
    let a = tree.add_node("a", None).unwrap();
    assert_eq!(a, NodeId(0));
    let b = tree.add_node("b", Some(a)).unwrap();
    assert_eq!(b, NodeId(1));
    assert_eq!(tree.get_parent(b), Some(a));
    assert_eq!(tree.add_node("c", Some(NodeId(9))), None);
    assert_eq!(tree.len(), 2);
}

#[test]
fn drop_preview_only_for_a_new_child() {
    let children = vec![NodeId(3), NodeId(4)];
    assert!(shows_as_child(Some(NodeId(5)), NodeId(1), &children, true));
    assert!(!shows_as_child(Some(NodeId(5)), NodeId(1), &children, false));
    assert!(!shows_as_child(Some(NodeId(4)), NodeId(1), &children, true));
    assert!(!shows_as_child(Some(NodeId(1)), NodeId(1), &children, true));
    assert!(!shows_as_child(None, NodeId(1), &children, true));
}
