//! Verified core of the Quartz engine and its editor: keyboard and mouse
//! input tracking, the scene tree of nodes and the walk that global
//! transforms follow, the bookkeeping of the scene file format, the encoding
//! of node ids in the viewport picking texture, and the editor's decisions
//! about its game, its outline of the tree and the input it passes to its UI.

pub mod editor_input;
pub mod fields;
pub mod input;
pub mod node;
pub mod outline;
pub mod parts;
pub mod pick;
pub mod reach;
pub mod session;
pub mod tree;
pub mod tree_laws;
pub mod walk;
