# quartz_engine

The verified core of the Quartz game engine and its editor, written in Verus.

`src/` is the library; every function in it carries a contract that Verus proves:

- `input`: which buttons are pressed, held and released in the current frame, and what any
  sequence of calls leaves them as.
- `tree`, `reach`, `tree_laws`: the scene tree (nodes, parent links, child lists, roots, the
  removal queue) as a `TreeView`, and the laws its operations keep: well-formedness and the
  plain forest invariant, removal (specified by the walk it takes over any tree, and equal to
  removing exactly a subtree where links agree), taking a node out and handing it back.
- `walk`: the order in which global transforms are computed, roots first and each node after
  its parent, with the proof that a well-formed tree has every node visited exactly once.
- `parts`: a tree read back from the parts it is written as equals it.
- `fields`: the key bookkeeping of the scene file format (duplicate and missing fields).
- `pick`: node ids in the picking texture.
- `outline`, `session`, `editor_input`: the editor's decisions about its tree outline, its game
  and its build, and the window input it hands to its UI.

`app/` is the ordinary Rust around it: components and plugins behind trait objects, transforms
(floating point), scene files through `serde` and `ron`, the game library bridge through
`libloading`, the project files on disk, and a windowless editor that performs what the
verified session and input decisions ask for.
