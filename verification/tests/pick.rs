use quartz_engine::node::NodeId;
use quartz_engine::pick::{pick_value, picked_node};

#[test]
fn pick_round_trip() {
    assert_eq!(picked_node(pick_value(NodeId(42))), Some(NodeId(42)));
    assert_eq!(picked_node(pick_value(NodeId(0))), Some(NodeId(0)));
}

#[test]
fn empty_pixel_is_no_node() {
    assert_eq!(picked_node(u32::MAX), None);
}

#[test]
fn pick_value_keeps_low_bits() {
    assert_eq!(pick_value(NodeId(0x1_0000_0005)), 5);
    assert_eq!(pick_value(NodeId(17)), 17);
}
