//! Node ids in the viewport picking texture.
//!
//! The picking pass writes the id of the node drawn at each pixel as a
//! 32-bit value; a pixel where no node was drawn holds `u32::MAX`.
use crate::node::NodeId;
use vstd::prelude::*;

verus! {

/// The value written in the picking texture for the node `id`: the low 32
/// bits of the id.
pub fn pick_value(id: NodeId) -> (v: u32)
    ensures
        v == id.0 as u32,
        id.0 < 0x1_0000_0000 ==> v == id.0,
{
    id.0 as u32
}

/// The node read from the picking texture: none where the texture holds
/// `u32::MAX`.
pub fn picked_node(value: u32) -> (n: Option<NodeId>)
    ensures
        value < u32::MAX ==> n == Some(NodeId(value as u64)),
        value == u32::MAX ==> n == None::<NodeId>,
{
    if value < u32::MAX {
        Some(NodeId(value as u64))
    } else {
        None
    }
}

/// A node whose id is below `u32::MAX` is read back from the picking
/// texture as itself.
pub proof fn lemma_pick_round_trip(id: NodeId)
    requires
        id.0 < u32::MAX,
    ensures
        (id.0 as u32) < u32::MAX,
        NodeId((id.0 as u32) as u64) == id,
{
}

} // verus!
