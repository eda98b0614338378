use jsoncompat::oneof_partitions::{
    oneof_array_empty_partition_subset_of, oneof_object_absence_partition_subset_of,
    oneof_object_empty_partition_subset_of, oneof_string_empty_partition_subset_of,
};
use jsoncompat::schema::{ContainsConstraint, CountRange, PatternConstraint, PatternSupport, SchemaNode, SchemaNodeKind};

fn node(kind: SchemaNodeKind) -> SchemaNode {
    SchemaNode::new(kind)
}

fn any() -> SchemaNode {
    node(SchemaNodeKind::Any)
}

fn string(min: u64, pattern: Option<&str>) -> SchemaNode {
    node(SchemaNodeKind::String {
        length: CountRange { min, max: None },
        pattern: pattern.map(|p| PatternConstraint { source: p.to_string(), support: PatternSupport::Supported }),
        format: None,
        enumeration: None,
    })
}

fn object(min: usize, required: &[&str], properties: Vec<(String, SchemaNode)>) -> SchemaNode {
    node(SchemaNodeKind::Object {
        properties,
        pattern_properties: vec![],
        required: required.iter().map(|s| s.to_string()).collect(),
        additional: Box::new(any()),
        property_names: Box::new(any()),
        property_count: CountRange { min, max: None },
        dependent_required: vec![],
        enumeration: None,
    })
}

fn array(min: u64, contains_min: Option<u64>) -> SchemaNode {
    node(SchemaNodeKind::Array {
        prefix_items: vec![],
        items: Box::new(any()),
        item_count: CountRange { min, max: None },
        contains: contains_min.map(|m| ContainsConstraint { schema: Box::new(any()), count: CountRange { min: m, max: None } }),
        unique_items: false,
        enumeration: None,
    })
}

#[test]
fn empty_string_partition() {
    assert!(oneof_string_empty_partition_subset_of(&[string(0, None), string(1, None)], &string(0, None)));
    assert!(oneof_string_empty_partition_subset_of(&[string(1, None), string(0, None)], &any()));
    assert!(!oneof_string_empty_partition_subset_of(&[string(0, None), string(1, None)], &string(1, None)));
    assert!(!oneof_string_empty_partition_subset_of(&[string(0, None), string(2, None)], &any()));
    assert!(!oneof_string_empty_partition_subset_of(&[string(0, Some("a")), string(1, None)], &any()));
    assert!(!oneof_string_empty_partition_subset_of(&[string(0, None)], &any()));
    let wrapped = node(SchemaNodeKind::AllOf(vec![string(1, None)]));
    assert!(oneof_string_empty_partition_subset_of(&[string(0, None), wrapped], &node(SchemaNodeKind::AnyOf(vec![string(5, None), string(0, None)]))));
}

#[test]
fn empty_object_partition() {
    assert!(oneof_object_empty_partition_subset_of(&[object(0, &[], vec![]), object(1, &[], vec![])], &object(0, &[], vec![])));
    assert!(!oneof_object_empty_partition_subset_of(&[object(0, &[], vec![]), object(1, &[], vec![])], &object(0, &["a"], vec![])));
    assert!(!oneof_object_empty_partition_subset_of(&[object(0, &[], vec![]), object(2, &[], vec![])], &any()));
    let guarded = node(SchemaNodeKind::IfThenElse {
        if_schema: Box::new(string(0, None)),
        then_schema: Some(Box::new(node(SchemaNodeKind::BoolSchema(false)))),
        else_schema: None,
    });
    assert!(oneof_object_empty_partition_subset_of(&[object(1, &[], vec![]), object(0, &[], vec![])], &guarded));
}

#[test]
fn empty_array_partition() {
    assert!(oneof_array_empty_partition_subset_of(&[array(0, None), array(1, None)], &array(0, Some(0))));
    assert!(!oneof_array_empty_partition_subset_of(&[array(0, None), array(1, None)], &array(0, Some(1))));
    assert!(!oneof_array_empty_partition_subset_of(&[array(0, Some(0)), array(1, None)], &any()));
    assert!(oneof_array_empty_partition_subset_of(&[array(1, None), array(0, None)], &node(SchemaNodeKind::BoolSchema(true))));
}

#[test]
fn property_absence_partition() {
    let presence = object(0, &["p"], vec![("p".to_string(), any())]);
    let without = object(0, &[], vec![("p".to_string(), string(0, None))]);
    assert!(oneof_object_absence_partition_subset_of(&[object(0, &[], vec![]), presence], &without));
    let presence = object(1, &["p"], vec![]);
    assert!(oneof_object_absence_partition_subset_of(&[presence, object(0, &[], vec![])], &any()));
    let presence = object(0, &["p"], vec![]);
    assert!(!oneof_object_absence_partition_subset_of(&[object(0, &[], vec![]), presence], &object(0, &[], vec![("q".to_string(), any())])));
    let two_names = object(0, &["p", "q"], vec![]);
    assert!(!oneof_object_absence_partition_subset_of(&[object(0, &[], vec![]), two_names], &any()));
    let split = node(SchemaNodeKind::AllOf(vec![object(0, &[], vec![]), object(0, &["p"], vec![])]));
    assert!(oneof_object_absence_partition_subset_of(&[object(0, &[], vec![]), split], &object(0, &[], vec![])));
    let both = node(SchemaNodeKind::AllOf(vec![object(0, &["p"], vec![]), object(0, &["q"], vec![])]));
    assert!(!oneof_object_absence_partition_subset_of(&[object(0, &[], vec![]), both], &any()));
}
