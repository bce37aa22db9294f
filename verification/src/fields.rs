//! The field bookkeeping of the scene file format.
//!
//! A scene is read as a struct `Scene { plugins, tree }`, its tree as
//! `Tree { nodes, parents, children, base }` and each node as
//! `Node { name, transform, component }`.  Read as maps, each field may come
//! at most once and in any order, and every field must come.  The reader
//! feeds each key it meets to `visit` and calls `finish` at the end.
use vstd::prelude::*;

verus! {

/// The name of a field of the scene format, as errors report it.
#[derive(Clone, Copy, Debug, PartialEq, Eq, Structural)]
pub enum FieldName {
    Plugins,
    Tree,
    Nodes,
    Parents,
    Children,
    Base,
    Name,
    Transform,
    Component,
}

impl FieldName {
    /// The field's name as written in a scene file.
    pub open spec fn text(self) -> Seq<char> {
        match self {
            FieldName::Plugins => "plugins"@,
            FieldName::Tree => "tree"@,
            FieldName::Nodes => "nodes"@,
            FieldName::Parents => "parents"@,
            FieldName::Children => "children"@,
            FieldName::Base => "base"@,
            FieldName::Name => "name"@,
            FieldName::Transform => "transform"@,
            FieldName::Component => "component"@,
        }
    }

    /// The field's name as written in a scene file.
    pub fn as_str(&self) -> (s: &'static str)
        ensures
            s@ == self.text(),
    {
        match self {
            FieldName::Plugins => "plugins",
            FieldName::Tree => "tree",
            FieldName::Nodes => "nodes",
            FieldName::Parents => "parents",
            FieldName::Children => "children",
            FieldName::Base => "base",
            FieldName::Name => "name",
            FieldName::Transform => "transform",
            FieldName::Component => "component",
        }
    }
}

/// Why the fields of a struct were refused.
#[derive(Clone, Copy, Debug, PartialEq, Eq, Structural)]
pub enum FieldError {
    /// A field came twice; the name is the one the format reports.
    Duplicate(FieldName),
    /// A field never came.
    Missing(FieldName),
}

/// A key of the `Scene` struct.
#[derive(Clone, Copy, Debug, PartialEq, Eq, Structural)]
pub enum SceneField {
    Plugins,
    Tree,
}

/// A key of the `Tree` struct.
#[derive(Clone, Copy, Debug, PartialEq, Eq, Structural)]
pub enum TreeField {
    Nodes,
    Parents,
    Children,
    Base,
}

/// A key of the `Node` struct.
#[derive(Clone, Copy, Debug, PartialEq, Eq, Structural)]
pub enum NodeField {
    Name,
    Transform,
    Component,
}

/// The keys of a `Scene` met so far.
#[derive(Clone, Copy, Debug, PartialEq, Eq, Structural)]
pub struct SceneFields {
    pub plugins: bool,
    pub tree: bool,
}

/// Reading the keys `keys`, in order, from a fresh `SceneFields`: the keys met, or
/// the error of the first duplicate.
pub open spec fn read_scene_keys(keys: Seq<SceneField>) -> Result<SceneFields, FieldError>
    decreases keys.len(),
{
    if keys.len() == 0 {
        Ok(SceneFields { plugins: false, tree: false })
    } else {
        match read_scene_keys(keys.drop_last()) {
            Ok(f) => f.step(keys.last()),
            Err(e) => Err(e),
        }
    }
}

impl SceneFields {
    /// Whether `key` was met.
    pub open spec fn seen(self, key: SceneField) -> bool {
        match key {
            SceneField::Plugins => self.plugins,
            SceneField::Tree => self.tree,
        }
    }

    /// The name a duplicate of `key` is reported under.
    pub open spec fn duplicate_name(key: SceneField) -> FieldName {
        match key {
            SceneField::Plugins => FieldName::Plugins,
            SceneField::Tree => FieldName::Tree,
        }
    }

    /// The keys met once `key` is met too.
    pub open spec fn mark(self, key: SceneField) -> Self {
        match key {
            SceneField::Plugins => SceneFields { plugins: true, ..self },
            SceneField::Tree => SceneFields { tree: true, ..self },
        }
    }

    /// Meeting `key`: refused when it was met before.
    pub open spec fn step(self, key: SceneField) -> Result<Self, FieldError> {
        if self.seen(key) {
            Err(FieldError::Duplicate(Self::duplicate_name(key)))
        } else {
            Ok(self.mark(key))
        }
    }

    /// The verdict at the end: the first missing key, in the order
    /// `plugins`, `tree`.
    pub open spec fn complete(self) -> Result<(), FieldError> {
            if !self.plugins {
                Err::<(), FieldError>(FieldError::Missing(FieldName::Plugins))
            } else if !self.tree {
                Err(FieldError::Missing(FieldName::Tree))
            } else {
                Ok(())
            }
    }

    /// No key met yet.
    pub fn new() -> (f: Self)
        ensures
            f == (SceneFields { plugins: false, tree: false }),
            forall|k: SceneField| !f.seen(k),
    {
        SceneFields { plugins: false, tree: false }
    }

    /// Records `key`; a key met before is refused as a duplicate and leaves
    /// the record as it was.
    pub fn visit(&mut self, key: SceneField) -> (r: Result<(), FieldError>)
        ensures
            match old(self).step(key) {
                Ok(f) => r == Ok::<(), FieldError>(()) && *final(self) == f,
                Err(e) => r == Err::<(), FieldError>(e) && *final(self) == *old(self),
            },
    {
        match key {
            SceneField::Plugins => {
                if self.plugins {
                    return Err(FieldError::Duplicate(FieldName::Plugins));
                }
                self.plugins = true;
            },
            SceneField::Tree => {
                if self.tree {
                    return Err(FieldError::Duplicate(FieldName::Tree));
                }
                self.tree = true;
            },
        }
        Ok(())
    }

    /// Accepts when every key was met; else reports the first missing one,
    /// in the order `plugins`, `tree`.
    pub fn finish(&self) -> (r: Result<(), FieldError>)
        ensures
            r == self.complete(),
    {
            if !self.plugins {
                Err(FieldError::Missing(FieldName::Plugins))
            } else if !self.tree {
                Err(FieldError::Missing(FieldName::Tree))
            } else {
                Ok(())
            }
    }
}

/// Reading keys accepts them, and is then complete, exactly when each key of
/// `Scene` comes once.
pub proof fn lemma_scene_keys_exactly_once(keys: Seq<SceneField>)
    ensures
        (read_scene_keys(keys) is Ok && read_scene_keys(keys)->Ok_0.complete() is Ok) <==> (
        keys.no_duplicates() && forall|k: SceneField| keys.contains(k)),
{
    lemma_scene_keys_read(keys);
    if read_scene_keys(keys) is Ok {
        let f = read_scene_keys(keys)->Ok_0;
        if forall|k: SceneField| keys.contains(k) {
            assert(keys.contains(SceneField::Plugins));
            assert(f.seen(SceneField::Plugins));
            assert(keys.contains(SceneField::Tree));
            assert(f.seen(SceneField::Tree));
        }
        if f.complete() is Ok {
            assert forall|k: SceneField| keys.contains(k) by {
                match k {
                    SceneField::Plugins => {},
                    SceneField::Tree => {},
                }
                assert(f.seen(k));
            }
        }
    }
}

/// Reading keys succeeds exactly when no key repeats, and then records
/// exactly the keys read.
pub proof fn lemma_scene_keys_read(keys: Seq<SceneField>)
    ensures
        read_scene_keys(keys) is Ok <==> keys.no_duplicates(),
        read_scene_keys(keys) is Ok ==> forall|k: SceneField|
            read_scene_keys(keys)->Ok_0.seen(k) <==> keys.contains(k),
    decreases keys.len(),
{
    if keys.len() > 0 {
        let init = keys.drop_last();
        let last = keys.last();
        lemma_scene_keys_read(init);
        assert(keys == init.push(last));
        if init.no_duplicates() {
            let f = read_scene_keys(init)->Ok_0;
            if !init.contains(last) {
                assert forall|a: int, b: int|
                    0 <= a < keys.len() && 0 <= b < keys.len() && a != b implies keys[a]
                    != keys[b] by {
                    if a == keys.len() - 1 {
                        assert(init.contains(init[b]));
                    } else if b == keys.len() - 1 {
                        assert(init.contains(init[a]));
                    } else {
                        assert(init[a] != init[b]);
                    }
                }
                assert forall|k: SceneField| f.mark(last).seen(k) <==> keys.contains(k) by {
                    if keys.contains(k) && k != last {
                        let i = choose|i: int| 0 <= i < keys.len() && keys[i] == k;
                        assert(init[i] == k);
                    }
                    if init.contains(k) {
                        let i = choose|i: int| 0 <= i < init.len() && init[i] == k;
                        assert(keys[i] == k);
                    }
                    assert(keys[keys.len() - 1] == last);
                }
            } else {
                let i = choose|i: int| 0 <= i < init.len() && init[i] == last;
                assert(keys[i] == keys[keys.len() - 1]);
            }
        } else {
            let (a, b) = choose|a: int, b: int|
                0 <= a < init.len() && 0 <= b < init.len() && a != b && init[a] == init[b];
            assert(keys[a] == keys[b]);
        }
    }
}

/// The keys of a `Tree` met so far.
#[derive(Clone, Copy, Debug, PartialEq, Eq, Structural)]
pub struct TreeFields {
    pub nodes: bool,
    pub parents: bool,
    pub children: bool,
    pub base: bool,
}

/// Reading the keys `keys`, in order, from a fresh `TreeFields`: the keys met, or
/// the error of the first duplicate.
pub open spec fn read_tree_keys(keys: Seq<TreeField>) -> Result<TreeFields, FieldError>
    decreases keys.len(),
{
    if keys.len() == 0 {
        Ok(TreeFields { nodes: false, parents: false, children: false, base: false })
    } else {
        match read_tree_keys(keys.drop_last()) {
            Ok(f) => f.step(keys.last()),
            Err(e) => Err(e),
        }
    }
}

impl TreeFields {
    /// Whether `key` was met.
    pub open spec fn seen(self, key: TreeField) -> bool {
        match key {
            TreeField::Nodes => self.nodes,
            TreeField::Parents => self.parents,
            TreeField::Children => self.children,
            TreeField::Base => self.base,
        }
    }

    /// The name a duplicate of `key` is reported under; a second `nodes` is
    /// reported as a duplicate `base`.
    pub open spec fn duplicate_name(key: TreeField) -> FieldName {
        match key {
            TreeField::Nodes => FieldName::Base,
            TreeField::Parents => FieldName::Parents,
            TreeField::Children => FieldName::Children,
            TreeField::Base => FieldName::Base,
        }
    }

    /// The keys met once `key` is met too.
    pub open spec fn mark(self, key: TreeField) -> Self {
        match key {
            TreeField::Nodes => TreeFields { nodes: true, ..self },
            TreeField::Parents => TreeFields { parents: true, ..self },
            TreeField::Children => TreeFields { children: true, ..self },
            TreeField::Base => TreeFields { base: true, ..self },
        }
    }

    /// Meeting `key`: refused when it was met before.
    pub open spec fn step(self, key: TreeField) -> Result<Self, FieldError> {
        if self.seen(key) {
            Err(FieldError::Duplicate(Self::duplicate_name(key)))
        } else {
            Ok(self.mark(key))
        }
    }

    /// The verdict at the end: the first missing key, in the order
    /// `nodes`, `parents`, `children`, `base`.
    pub open spec fn complete(self) -> Result<(), FieldError> {
            if !self.nodes {
                Err::<(), FieldError>(FieldError::Missing(FieldName::Nodes))
            } else if !self.parents {
                Err(FieldError::Missing(FieldName::Parents))
            } else if !self.children {
                Err(FieldError::Missing(FieldName::Children))
            } else if !self.base {
                Err(FieldError::Missing(FieldName::Base))
            } else {
                Ok(())
            }
    }

    /// No key met yet.
    pub fn new() -> (f: Self)
        ensures
            f == (TreeFields { nodes: false, parents: false, children: false, base: false }),
            forall|k: TreeField| !f.seen(k),
    {
        TreeFields { nodes: false, parents: false, children: false, base: false }
    }

    /// Records `key`; a key met before is refused as a duplicate and leaves
    /// the record as it was.
    pub fn visit(&mut self, key: TreeField) -> (r: Result<(), FieldError>)
        ensures
            match old(self).step(key) {
                Ok(f) => r == Ok::<(), FieldError>(()) && *final(self) == f,
                Err(e) => r == Err::<(), FieldError>(e) && *final(self) == *old(self),
            },
    {
        match key {
            TreeField::Nodes => {
                if self.nodes {
                    return Err(FieldError::Duplicate(FieldName::Base));
                }
                self.nodes = true;
            },
            TreeField::Parents => {
                if self.parents {
                    return Err(FieldError::Duplicate(FieldName::Parents));
                }
                self.parents = true;
            },
            TreeField::Children => {
                if self.children {
                    return Err(FieldError::Duplicate(FieldName::Children));
                }
                self.children = true;
            },
            TreeField::Base => {
                if self.base {
                    return Err(FieldError::Duplicate(FieldName::Base));
                }
                self.base = true;
            },
        }
        Ok(())
    }

    /// Accepts when every key was met; else reports the first missing one,
    /// in the order `nodes`, `parents`, `children`, `base`.
    pub fn finish(&self) -> (r: Result<(), FieldError>)
        ensures
            r == self.complete(),
    {
            if !self.nodes {
                Err(FieldError::Missing(FieldName::Nodes))
            } else if !self.parents {
                Err(FieldError::Missing(FieldName::Parents))
            } else if !self.children {
                Err(FieldError::Missing(FieldName::Children))
            } else if !self.base {
                Err(FieldError::Missing(FieldName::Base))
            } else {
                Ok(())
            }
    }
}

/// Reading keys accepts them, and is then complete, exactly when each key of
/// `Tree` comes once.
pub proof fn lemma_tree_keys_exactly_once(keys: Seq<TreeField>)
    ensures
        (read_tree_keys(keys) is Ok && read_tree_keys(keys)->Ok_0.complete() is Ok) <==> (
        keys.no_duplicates() && forall|k: TreeField| keys.contains(k)),
{
    lemma_tree_keys_read(keys);
    if read_tree_keys(keys) is Ok {
        let f = read_tree_keys(keys)->Ok_0;
        if forall|k: TreeField| keys.contains(k) {
            assert(keys.contains(TreeField::Nodes));
            assert(f.seen(TreeField::Nodes));
            assert(keys.contains(TreeField::Parents));
            assert(f.seen(TreeField::Parents));
            assert(keys.contains(TreeField::Children));
            assert(f.seen(TreeField::Children));
            assert(keys.contains(TreeField::Base));
            assert(f.seen(TreeField::Base));
        }
        if f.complete() is Ok {
            assert forall|k: TreeField| keys.contains(k) by {
                match k {
                    TreeField::Nodes => {},
                    TreeField::Parents => {},
                    TreeField::Children => {},
                    TreeField::Base => {},
                }
                assert(f.seen(k));
            }
        }
    }
}

/// Reading keys succeeds exactly when no key repeats, and then records
/// exactly the keys read.
pub proof fn lemma_tree_keys_read(keys: Seq<TreeField>)
    ensures
        read_tree_keys(keys) is Ok <==> keys.no_duplicates(),
        read_tree_keys(keys) is Ok ==> forall|k: TreeField|
            read_tree_keys(keys)->Ok_0.seen(k) <==> keys.contains(k),
    decreases keys.len(),
{
    if keys.len() > 0 {
        let init = keys.drop_last();
        let last = keys.last();
        lemma_tree_keys_read(init);
        assert(keys == init.push(last));
        if init.no_duplicates() {
            let f = read_tree_keys(init)->Ok_0;
            if !init.contains(last) {
                assert forall|a: int, b: int|
                    0 <= a < keys.len() && 0 <= b < keys.len() && a != b implies keys[a]
                    != keys[b] by {
                    if a == keys.len() - 1 {
                        assert(init.contains(init[b]));
                    } else if b == keys.len() - 1 {
                        assert(init.contains(init[a]));
                    } else {
                        assert(init[a] != init[b]);
                    }
                }
                assert forall|k: TreeField| f.mark(last).seen(k) <==> keys.contains(k) by {
                    if keys.contains(k) && k != last {
                        let i = choose|i: int| 0 <= i < keys.len() && keys[i] == k;
                        assert(init[i] == k);
                    }
                    if init.contains(k) {
                        let i = choose|i: int| 0 <= i < init.len() && init[i] == k;
                        assert(keys[i] == k);
                    }
                    assert(keys[keys.len() - 1] == last);
                }
            } else {
                let i = choose|i: int| 0 <= i < init.len() && init[i] == last;
                assert(keys[i] == keys[keys.len() - 1]);
            }
        } else {
            let (a, b) = choose|a: int, b: int|
                0 <= a < init.len() && 0 <= b < init.len() && a != b && init[a] == init[b];
            assert(keys[a] == keys[b]);
        }
    }
}

/// The keys of a `Node` met so far.
#[derive(Clone, Copy, Debug, PartialEq, Eq, Structural)]
pub struct NodeFields {
    pub name: bool,
    pub transform: bool,
    pub component: bool,
}

/// Reading the keys `keys`, in order, from a fresh `NodeFields`: the keys met, or
/// the error of the first duplicate.
pub open spec fn read_node_keys(keys: Seq<NodeField>) -> Result<NodeFields, FieldError>
    decreases keys.len(),
{
    if keys.len() == 0 {
        Ok(NodeFields { name: false, transform: false, component: false })
    } else {
        match read_node_keys(keys.drop_last()) {
            Ok(f) => f.step(keys.last()),
            Err(e) => Err(e),
        }
    }
}

impl NodeFields {
    /// Whether `key` was met.
    pub open spec fn seen(self, key: NodeField) -> bool {
        match key {
            NodeField::Name => self.name,
            NodeField::Transform => self.transform,
            NodeField::Component => self.component,
        }
    }

    /// The name a duplicate of `key` is reported under.
    pub open spec fn duplicate_name(key: NodeField) -> FieldName {
        match key {
            NodeField::Name => FieldName::Name,
            NodeField::Transform => FieldName::Transform,
            NodeField::Component => FieldName::Component,
        }
    }

    /// The keys met once `key` is met too.
    pub open spec fn mark(self, key: NodeField) -> Self {
        match key {
            NodeField::Name => NodeFields { name: true, ..self },
            NodeField::Transform => NodeFields { transform: true, ..self },
            NodeField::Component => NodeFields { component: true, ..self },
        }
    }

    /// Meeting `key`: refused when it was met before.
    pub open spec fn step(self, key: NodeField) -> Result<Self, FieldError> {
        if self.seen(key) {
            Err(FieldError::Duplicate(Self::duplicate_name(key)))
        } else {
            Ok(self.mark(key))
        }
    }

    /// The verdict at the end: the first missing key, in the order
    /// `name`, `transform`, `component`.
    pub open spec fn complete(self) -> Result<(), FieldError> {
            if !self.name {
                Err::<(), FieldError>(FieldError::Missing(FieldName::Name))
            } else if !self.transform {
                Err(FieldError::Missing(FieldName::Transform))
            } else if !self.component {
                Err(FieldError::Missing(FieldName::Component))
            } else {
                Ok(())
            }
    }

    /// No key met yet.
    pub fn new() -> (f: Self)
        ensures
            f == (NodeFields { name: false, transform: false, component: false }),
            forall|k: NodeField| !f.seen(k),
    {
        NodeFields { name: false, transform: false, component: false }
    }

    /// Records `key`; a key met before is refused as a duplicate and leaves
    /// the record as it was.
    pub fn visit(&mut self, key: NodeField) -> (r: Result<(), FieldError>)
        ensures
            match old(self).step(key) {
                Ok(f) => r == Ok::<(), FieldError>(()) && *final(self) == f,
                Err(e) => r == Err::<(), FieldError>(e) && *final(self) == *old(self),
            },
    {
        match key {
            NodeField::Name => {
                if self.name {
                    return Err(FieldError::Duplicate(FieldName::Name));
                }
                self.name = true;
            },
            NodeField::Transform => {
                if self.transform {
                    return Err(FieldError::Duplicate(FieldName::Transform));
                }
                self.transform = true;
            },
            NodeField::Component => {
                if self.component {
                    return Err(FieldError::Duplicate(FieldName::Component));
                }
                self.component = true;
            },
        }
        Ok(())
    }

    /// Accepts when every key was met; else reports the first missing one,
    /// in the order `name`, `transform`, `component`.
    pub fn finish(&self) -> (r: Result<(), FieldError>)
        ensures
            r == self.complete(),
    {
            if !self.name {
                Err(FieldError::Missing(FieldName::Name))
            } else if !self.transform {
                Err(FieldError::Missing(FieldName::Transform))
            } else if !self.component {
                Err(FieldError::Missing(FieldName::Component))
            } else {
                Ok(())
            }
    }
}

/// Reading keys accepts them, and is then complete, exactly when each key of
/// `Node` comes once.
pub proof fn lemma_node_keys_exactly_once(keys: Seq<NodeField>)
    ensures
        (read_node_keys(keys) is Ok && read_node_keys(keys)->Ok_0.complete() is Ok) <==> (
        keys.no_duplicates() && forall|k: NodeField| keys.contains(k)),
{
    lemma_node_keys_read(keys);
    if read_node_keys(keys) is Ok {
        let f = read_node_keys(keys)->Ok_0;
        if forall|k: NodeField| keys.contains(k) {
            assert(keys.contains(NodeField::Name));
            assert(f.seen(NodeField::Name));
            assert(keys.contains(NodeField::Transform));
            assert(f.seen(NodeField::Transform));
            assert(keys.contains(NodeField::Component));
            assert(f.seen(NodeField::Component));
        }
        if f.complete() is Ok {
            assert forall|k: NodeField| keys.contains(k) by {
                match k {
                    NodeField::Name => {},
                    NodeField::Transform => {},
                    NodeField::Component => {},
                }
                assert(f.seen(k));
            }
        }
    }
}

/// Reading keys succeeds exactly when no key repeats, and then records
/// exactly the keys read.
pub proof fn lemma_node_keys_read(keys: Seq<NodeField>)
    ensures
        read_node_keys(keys) is Ok <==> keys.no_duplicates(),
        read_node_keys(keys) is Ok ==> forall|k: NodeField|
            read_node_keys(keys)->Ok_0.seen(k) <==> keys.contains(k),
    decreases keys.len(),
{
    if keys.len() > 0 {
        let init = keys.drop_last();
        let last = keys.last();
        lemma_node_keys_read(init);
        assert(keys == init.push(last));
        if init.no_duplicates() {
            let f = read_node_keys(init)->Ok_0;
            if !init.contains(last) {
                assert forall|a: int, b: int|
                    0 <= a < keys.len() && 0 <= b < keys.len() && a != b implies keys[a]
                    != keys[b] by {
                    if a == keys.len() - 1 {
                        assert(init.contains(init[b]));
                    } else if b == keys.len() - 1 {
                        assert(init.contains(init[a]));
                    } else {
                        assert(init[a] != init[b]);
                    }
                }
                assert forall|k: NodeField| f.mark(last).seen(k) <==> keys.contains(k) by {
                    if keys.contains(k) && k != last {
                        let i = choose|i: int| 0 <= i < keys.len() && keys[i] == k;
                        assert(init[i] == k);
                    }
                    if init.contains(k) {
                        let i = choose|i: int| 0 <= i < init.len() && init[i] == k;
                        assert(keys[i] == k);
                    }
                    assert(keys[keys.len() - 1] == last);
                }
            } else {
                let i = choose|i: int| 0 <= i < init.len() && init[i] == last;
                assert(keys[i] == keys[keys.len() - 1]);
            }
        } else {
            let (a, b) = choose|a: int, b: int|
                0 <= a < init.len() && 0 <= b < init.len() && a != b && init[a] == init[b];
            assert(keys[a] == keys[b]);
        }
    }
}

} // verus!
