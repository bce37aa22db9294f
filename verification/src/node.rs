use vstd::prelude::*;

verus! {

/// The identifier of a node of a [`crate::tree::Tree`].
#[derive(Clone, Copy, Debug, PartialEq, Eq, Hash, Structural)]
pub struct NodeId(pub u64);

} // verus!
