use jsoncompat::complements::{
    negated_untyped_array_count_halfline_subset_of, negated_untyped_numeric_halfline_subset_of,
    negated_untyped_object_count_halfline_subset_of, negated_untyped_string_length_halfline_subset_of,
};
use jsoncompat::schema::{CountRange, NumberBound, NumberBounds, SchemaNode, SchemaNodeKind};

fn node(kind: SchemaNodeKind) -> SchemaNode {
    SchemaNode::new(kind)
}

fn any() -> SchemaNode {
    node(SchemaNodeKind::Any)
}

fn null() -> SchemaNode {
    node(SchemaNodeKind::Null { enumeration: None })
}

fn boolean() -> SchemaNode {
    node(SchemaNodeKind::Boolean { enumeration: None })
}

fn number(lower: NumberBound, upper: NumberBound) -> SchemaNode {
    node(SchemaNodeKind::Number { bounds: NumberBounds { lower, upper }, multiple_of: None, enumeration: None })
}

fn string(min: u64, max: Option<u64>) -> SchemaNode {
    node(SchemaNodeKind::String { length: CountRange { min, max }, pattern: None, format: None, enumeration: None })
}

fn array(min: u64, max: Option<u64>) -> SchemaNode {
    node(SchemaNodeKind::Array {
        prefix_items: vec![],
        items: Box::new(any()),
        item_count: CountRange { min, max },
        contains: None,
        unique_items: false,
        enumeration: None,
    })
}

fn object(min: usize, max: Option<usize>) -> SchemaNode {
    node(SchemaNodeKind::Object {
        properties: vec![],
        pattern_properties: vec![],
        required: vec![],
        additional: Box::new(any()),
        property_names: Box::new(any()),
        property_count: CountRange { min, max },
        dependent_required: vec![],
        enumeration: None,
    })
}

fn unbounded_number() -> SchemaNode {
    number(NumberBound::Unbounded, NumberBound::Unbounded)
}

#[test]
fn negated_min_items_is_short_arrays() {
    let branches = vec![null(), boolean(), unbounded_number(), string(0, None), object(0, None), array(3, None)];
    assert!(negated_untyped_array_count_halfline_subset_of(&branches, &array(0, Some(2))));
    assert!(negated_untyped_array_count_halfline_subset_of(&branches, &array(0, Some(5))));
    assert!(!negated_untyped_array_count_halfline_subset_of(&branches, &array(0, Some(1))));
    assert!(!negated_untyped_array_count_halfline_subset_of(&branches, &array(1, None)));
    let max_branch = vec![null(), boolean(), unbounded_number(), string(0, None), object(0, None), array(0, Some(4))];
    assert!(negated_untyped_array_count_halfline_subset_of(&max_branch, &array(5, None)));
    assert!(!negated_untyped_array_count_halfline_subset_of(&max_branch, &array(6, None)));
    let universal = vec![null(), boolean(), unbounded_number(), string(0, None), object(0, None), array(0, None)];
    assert!(negated_untyped_array_count_halfline_subset_of(&universal, &array(7, Some(7))));
    let missing_object = vec![null(), boolean(), unbounded_number(), string(0, None), array(3, None)];
    assert!(!negated_untyped_array_count_halfline_subset_of(&missing_object, &array(0, Some(2))));
}

#[test]
fn negated_min_properties_is_small_objects() {
    let branches = vec![null(), boolean(), unbounded_number(), string(0, None), array(0, None), object(2, None)];
    assert!(negated_untyped_object_count_halfline_subset_of(&branches, &object(0, Some(1))));
    assert!(!negated_untyped_object_count_halfline_subset_of(&branches, &object(0, Some(0))));
    let max_branch = vec![null(), boolean(), unbounded_number(), string(0, None), array(0, None), object(0, Some(usize::MAX))];
    assert!(!negated_untyped_object_count_halfline_subset_of(&max_branch, &object(0, None)));
}

#[test]
fn negated_min_length_is_short_strings() {
    let branches = vec![null(), boolean(), unbounded_number(), array(0, None), object(0, None), string(4, None)];
    assert!(negated_untyped_string_length_halfline_subset_of(&branches, &string(0, Some(3))));
    assert!(!negated_untyped_string_length_halfline_subset_of(&branches, &string(1, Some(3))));
    let middle = vec![null(), boolean(), unbounded_number(), array(0, None), object(0, None), string(2, Some(4))];
    assert!(!negated_untyped_string_length_halfline_subset_of(&middle, &string(0, None)));
}

#[test]
fn negated_minimum_is_lower_numbers() {
    let branches = vec![
        null(), boolean(), string(0, None), array(0, None), object(0, None),
        number(NumberBound::Inclusive(0.0f64.to_bits()), NumberBound::Unbounded),
    ];
    let below_zero = number(NumberBound::Unbounded, NumberBound::Exclusive(0.0f64.to_bits()));
    assert!(negated_untyped_numeric_halfline_subset_of(&branches, &below_zero));
    let up_to_zero = number(NumberBound::Unbounded, NumberBound::Inclusive(0.0f64.to_bits()));
    assert!(negated_untyped_numeric_halfline_subset_of(&branches, &up_to_zero));
    let below_minus_one = number(NumberBound::Unbounded, NumberBound::Inclusive((-1.0f64).to_bits()));
    assert!(!negated_untyped_numeric_halfline_subset_of(&branches, &below_minus_one));
    let exclusive = vec![
        null(), boolean(), string(0, None), array(0, None), object(0, None),
        number(NumberBound::Exclusive(0.0f64.to_bits()), NumberBound::Unbounded),
    ];
    assert!(!negated_untyped_numeric_halfline_subset_of(&exclusive, &below_zero));
    assert!(negated_untyped_numeric_halfline_subset_of(&exclusive, &up_to_zero));
}
