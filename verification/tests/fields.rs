use quartz_engine::fields::{
    FieldError, FieldName, NodeField, NodeFields, SceneField, SceneFields, TreeField, TreeFields,
};

#[test]
fn tree_fields_in_any_order_are_accepted() {
    let mut f = TreeFields::new();
    assert_eq!(f.visit(TreeField::Base), Ok(()));
    assert_eq!(f.visit(TreeField::Children), Ok(()));
    assert_eq!(f.visit(TreeField::Nodes), Ok(()));
    assert_eq!(f.visit(TreeField::Parents), Ok(()));
    assert_eq!(f.finish(), Ok(()));
}

#[test]
fn duplicate_nodes_is_reported_as_base() {
    let mut f = TreeFields::new();
    assert_eq!(f.visit(TreeField::Nodes), Ok(()));
    assert_eq!(f.visit(TreeField::Nodes), Err(FieldError::Duplicate(FieldName::Base)));
}

#[test]
fn duplicate_parents_is_reported() {
    let mut f = TreeFields::new();
    f.visit(TreeField::Parents).unwrap();
    assert_eq!(f.visit(TreeField::Parents), Err(FieldError::Duplicate(FieldName::Parents)));
}

#[test]
fn first_missing_tree_field_is_reported() {
    let mut f = TreeFields::new();
    assert_eq!(f.finish(), Err(FieldError::Missing(FieldName::Nodes)));
    f.visit(TreeField::Nodes).unwrap();
    f.visit(TreeField::Base).unwrap();
    assert_eq!(f.finish(), Err(FieldError::Missing(FieldName::Parents)));
    f.visit(TreeField::Parents).unwrap();
    assert_eq!(f.finish(), Err(FieldError::Missing(FieldName::Children)));
}

#[test]
fn scene_fields() {
    let mut f = SceneFields::new();
    assert_eq!(f.finish(), Err(FieldError::Missing(FieldName::Plugins)));
    f.visit(SceneField::Plugins).unwrap();
    assert_eq!(f.finish(), Err(FieldError::Missing(FieldName::Tree)));
    assert_eq!(f.visit(SceneField::Plugins), Err(FieldError::Duplicate(FieldName::Plugins)));
    f.visit(SceneField::Tree).unwrap();
    assert_eq!(f.finish(), Ok(()));
}

#[test]
fn node_fields() {
    let mut f = NodeFields::new();
    f.visit(NodeField::Component).unwrap();
    assert_eq!(f.finish(), Err(FieldError::Missing(FieldName::Name)));
    f.visit(NodeField::Name).unwrap();
    assert_eq!(f.finish(), Err(FieldError::Missing(FieldName::Transform)));
    assert_eq!(f.visit(NodeField::Name), Err(FieldError::Duplicate(FieldName::Name)));
    f.visit(NodeField::Transform).unwrap();
    assert_eq!(f.finish(), Ok(()));
    assert_eq!(
        f.visit(NodeField::Transform),
        Err(FieldError::Duplicate(FieldName::Transform))
    );
}

#[test]
fn field_names_as_written() {
    assert_eq!(FieldName::Base.as_str(), "base");
    assert_eq!(FieldName::Component.as_str(), "component");
    assert_eq!(FieldName::Plugins.as_str(), "plugins");
}
