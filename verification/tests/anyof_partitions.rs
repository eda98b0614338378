use jsoncompat::anyof_partitions::{any_of_items_contains_partition_is_universal, any_of_prefix_item_partition_is_universal};
use jsoncompat::schema::{ContainsConstraint, CountRange, SchemaNode, SchemaNodeKind};

fn node(kind: SchemaNodeKind) -> SchemaNode {
    SchemaNode::new(kind)
}

fn any() -> SchemaNode {
    node(SchemaNodeKind::Any)
}

fn not(s: SchemaNode) -> SchemaNode {
    node(SchemaNodeKind::Not(Box::new(s)))
}

fn string() -> SchemaNode {
    node(SchemaNodeKind::String { length: CountRange { min: 0, max: None }, pattern: None, format: None, enumeration: None })
}

fn object() -> SchemaNode {
    node(SchemaNodeKind::Object {
        properties: vec![],
        pattern_properties: vec![],
        required: vec![],
        additional: Box::new(any()),
        property_names: Box::new(any()),
        property_count: CountRange { min: 0, max: None },
        dependent_required: vec![],
        enumeration: None,
    })
}

fn array_with(prefix_items: Vec<SchemaNode>, items: SchemaNode, contains: Option<(SchemaNode, u64)>) -> SchemaNode {
    node(SchemaNodeKind::Array {
        prefix_items,
        items: Box::new(items),
        item_count: CountRange { min: 0, max: None },
        contains: contains.map(|(schema, min)| ContainsConstraint { schema: Box::new(schema), count: CountRange { min, max: None } }),
        unique_items: false,
        enumeration: None,
    })
}

fn non_arrays() -> Vec<SchemaNode> {
    vec![
        node(SchemaNodeKind::Null { enumeration: None }),
        node(SchemaNodeKind::Boolean { enumeration: None }),
        node(SchemaNodeKind::Number {
            bounds: jsoncompat::schema::NumberBounds {
                lower: jsoncompat::schema::NumberBound::Unbounded,
                upper: jsoncompat::schema::NumberBound::Unbounded,
            },
            multiple_of: None,
            enumeration: None,
        }),
        string(),
        object(),
    ]
}

fn with(mut base: Vec<SchemaNode>, arms: Vec<SchemaNode>) -> Vec<SchemaNode> {
    base.extend(arms);
    base
}

#[test]
fn complementary_tuple_position() {
    let arms = vec![array_with(vec![any(), string()], any(), None), array_with(vec![any(), not(string())], any(), None)];
    assert!(any_of_prefix_item_partition_is_universal(&with(non_arrays(), arms)));
    let shifted = vec![array_with(vec![string()], any(), None), array_with(vec![any(), not(string())], any(), None)];
    assert!(!any_of_prefix_item_partition_is_universal(&with(non_arrays(), shifted)));
    let nested = vec![node(SchemaNodeKind::AnyOf(vec![array_with(vec![string()], any(), None), array_with(vec![not(string())], any(), None)]))];
    assert!(any_of_prefix_item_partition_is_universal(&with(non_arrays(), nested)));
    let other_position_constrained = vec![array_with(vec![string(), string()], any(), None), array_with(vec![not(string())], any(), None)];
    assert!(!any_of_prefix_item_partition_is_universal(&with(non_arrays(), other_position_constrained)));
    let arms = vec![array_with(vec![string()], any(), None), array_with(vec![not(string())], any(), None)];
    assert!(!any_of_prefix_item_partition_is_universal(&arms));
}

#[test]
fn every_item_or_some_failing_item() {
    let arms = vec![array_with(vec![], string(), None), array_with(vec![], any(), Some((not(string()), 1)))];
    assert!(any_of_items_contains_partition_is_universal(&with(non_arrays(), arms)));
    let arms = vec![array_with(vec![], not(string()), None), array_with(vec![], any(), Some((string(), 1)))];
    assert!(any_of_items_contains_partition_is_universal(&with(non_arrays(), arms)));
    let nested = vec![node(SchemaNodeKind::AnyOf(vec![
        array_with(vec![], string(), None),
        array_with(vec![], any(), Some((not(string()), 0))),
    ]))];
    assert!(any_of_items_contains_partition_is_universal(&with(non_arrays(), nested)));
}

#[test]
fn items_contains_mismatches() {
    let same_side = vec![array_with(vec![], string(), None), array_with(vec![], any(), Some((string(), 1)))];
    assert!(!any_of_items_contains_partition_is_universal(&with(non_arrays(), same_side)));
    let two_required = vec![array_with(vec![], string(), None), array_with(vec![], any(), Some((not(string()), 2)))];
    assert!(!any_of_items_contains_partition_is_universal(&with(non_arrays(), two_required)));
    let with_prefix = vec![array_with(vec![any()], string(), None), array_with(vec![], any(), Some((not(string()), 1)))];
    assert!(!any_of_items_contains_partition_is_universal(&with(non_arrays(), with_prefix)));
    let arms = vec![array_with(vec![], string(), None), array_with(vec![], any(), Some((not(string()), 1)))];
    assert!(!any_of_items_contains_partition_is_universal(&arms));
    let universal_items = vec![array_with(vec![], any(), None), array_with(vec![], any(), Some((not(any()), 1)))];
    assert!(!any_of_items_contains_partition_is_universal(&with(non_arrays(), universal_items)));
}
