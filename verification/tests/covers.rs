use jsoncompat::covers::{any_of_obvious_type_cover_contains, negated_union_type_remainder_subset_of};
use jsoncompat::partitions::{
    any_of_array_count_cover_is_universal, any_of_object_count_cover_is_universal, any_of_string_length_cover_is_universal,
};
use jsoncompat::schema::{CountRange, NumberBound, NumberBounds, SchemaNode, SchemaNodeKind};

fn node(kind: SchemaNodeKind) -> SchemaNode {
    SchemaNode::new(kind)
}

fn string_len(min: u64, max: Option<u64>) -> SchemaNode {
    node(SchemaNodeKind::String { length: CountRange { min, max }, pattern: None, format: None, enumeration: None })
}

fn null() -> SchemaNode {
    node(SchemaNodeKind::Null { enumeration: None })
}

fn boolean() -> SchemaNode {
    node(SchemaNodeKind::Boolean { enumeration: None })
}

fn number() -> SchemaNode {
    node(SchemaNodeKind::Number {
        bounds: NumberBounds { lower: NumberBound::Unbounded, upper: NumberBound::Unbounded },
        multiple_of: None,
        enumeration: None,
    })
}

fn array(min: u64, max: Option<u64>) -> SchemaNode {
    node(SchemaNodeKind::Array {
        prefix_items: vec![],
        items: Box::new(node(SchemaNodeKind::Any)),
        item_count: CountRange { min, max },
        contains: None,
        unique_items: false,
        enumeration: None,
    })
}

fn object(min: usize, max: Option<usize>, properties: Vec<(String, SchemaNode)>) -> SchemaNode {
    node(SchemaNodeKind::Object {
        properties,
        pattern_properties: vec![],
        required: vec![],
        additional: Box::new(node(SchemaNodeKind::Any)),
        property_names: Box::new(node(SchemaNodeKind::Any)),
        property_count: CountRange { min, max },
        dependent_required: vec![],
        enumeration: None,
    })
}

#[test]
fn negated_union_remainder() {
    assert!(negated_union_type_remainder_subset_of(&[node(SchemaNodeKind::Any)], &node(SchemaNodeKind::BoolSchema(false))));
    assert!(!negated_union_type_remainder_subset_of(&[string_len(0, None)], &string_len(0, None)));
    assert!(negated_union_type_remainder_subset_of(&[string_len(0, None)], &node(SchemaNodeKind::Any)));
    let others = node(SchemaNodeKind::AnyOf(vec![null(), boolean(), number(), array(0, None), object(0, None, vec![])]));
    assert!(negated_union_type_remainder_subset_of(&[string_len(0, None)], &others));
    assert!(!negated_union_type_remainder_subset_of(&[string_len(1, None)], &others));
}

#[test]
fn whole_type_cover() {
    assert!(any_of_obvious_type_cover_contains(&string_len(1, None), &[null(), string_len(0, None)]));
    assert!(!any_of_obvious_type_cover_contains(&node(SchemaNodeKind::Any), &[string_len(0, None)]));
    assert!(any_of_obvious_type_cover_contains(&node(SchemaNodeKind::BoolSchema(false)), &[]));
    assert!(!any_of_obvious_type_cover_contains(&string_len(1, None), &[string_len(1, None)]));
}

#[test]
fn string_length_cover() {
    let others = || vec![null(), boolean(), number(), array(0, None), object(0, None, vec![])];
    let mut branches = others();
    branches.push(string_len(0, Some(3)));
    branches.push(string_len(4, None));
    assert!(any_of_string_length_cover_is_universal(&branches));
    let mut gapped = others();
    gapped.push(string_len(0, Some(3)));
    gapped.push(string_len(5, None));
    assert!(!any_of_string_length_cover_is_universal(&gapped));
    let nested = vec![
        null(), boolean(), number(), array(0, None), object(0, None, vec![]),
        node(SchemaNodeKind::AnyOf(vec![string_len(0, Some(0)), string_len(1, None)])),
    ];
    assert!(any_of_string_length_cover_is_universal(&nested));
    let missing_type = vec![null(), boolean(), number(), array(0, None), string_len(0, None)];
    assert!(!any_of_string_length_cover_is_universal(&missing_type));
}

#[test]
fn array_count_cover() {
    let branches = vec![null(), boolean(), number(), string_len(0, None), object(0, None, vec![]), array(0, Some(2)), array(3, None)];
    assert!(any_of_array_count_cover_is_universal(&branches));
    let gapped = vec![null(), boolean(), number(), string_len(0, None), object(0, None, vec![]), array(0, Some(1)), array(3, None)];
    assert!(!any_of_array_count_cover_is_universal(&gapped));
}

#[test]
fn object_count_cover() {
    let applicator_arm = object(0, None, vec![("a".to_string(), string_len(0, None))]);
    let branches = vec![null(), boolean(), number(), string_len(0, None), array(0, None), applicator_arm, object(1, None, vec![])];
    assert!(any_of_object_count_cover_is_universal(&branches));
    let starts_at_two = vec![null(), boolean(), number(), string_len(0, None), array(0, None), object(0, Some(0), vec![]), object(2, None, vec![])];
    assert!(!any_of_object_count_cover_is_universal(&starts_at_two));
}
