use jsoncompat::object_partitions::{
    any_of_property_presence_cover_is_universal, any_of_required_property_value_partition_is_universal,
    any_of_single_property_name_partition_is_universal,
};
use jsoncompat::schema::{CountRange, NumberBound, NumberBounds, SchemaNode, SchemaNodeKind};

fn node(kind: SchemaNodeKind) -> SchemaNode {
    SchemaNode::new(kind)
}

fn any() -> SchemaNode {
    node(SchemaNodeKind::Any)
}

fn not(s: SchemaNode) -> SchemaNode {
    node(SchemaNodeKind::Not(Box::new(s)))
}

fn string() -> SchemaNode {
    node(SchemaNodeKind::String { length: CountRange { min: 0, max: None }, pattern: None, format: None, enumeration: None })
}

fn short_string() -> SchemaNode {
    node(SchemaNodeKind::String { length: CountRange { min: 0, max: Some(3) }, pattern: None, format: None, enumeration: None })
}

fn array() -> SchemaNode {
    node(SchemaNodeKind::Array {
        prefix_items: vec![],
        items: Box::new(any()),
        item_count: CountRange { min: 0, max: None },
        contains: None,
        unique_items: false,
        enumeration: None,
    })
}

struct Obj {
    properties: Vec<(String, SchemaNode)>,
    required: Vec<String>,
    property_names: SchemaNode,
    min: usize,
    max: Option<usize>,
    dependent_required: Vec<(String, Vec<String>)>,
}

fn obj() -> Obj {
    Obj { properties: vec![], required: vec![], property_names: any(), min: 0, max: None, dependent_required: vec![] }
}

fn build(o: Obj) -> SchemaNode {
    node(SchemaNodeKind::Object {
        properties: o.properties,
        pattern_properties: vec![],
        required: o.required,
        additional: Box::new(any()),
        property_names: Box::new(o.property_names),
        property_count: CountRange { min: o.min, max: o.max },
        dependent_required: o.dependent_required,
        enumeration: None,
    })
}

fn non_objects() -> Vec<SchemaNode> {
    vec![
        node(SchemaNodeKind::Null { enumeration: None }),
        node(SchemaNodeKind::Boolean { enumeration: None }),
        node(SchemaNodeKind::Number {
            bounds: NumberBounds { lower: NumberBound::Unbounded, upper: NumberBound::Unbounded },
            multiple_of: None,
            enumeration: None,
        }),
        string(),
        array(),
    ]
}

fn with(mut base: Vec<SchemaNode>, arms: Vec<SchemaNode>) -> Vec<SchemaNode> {
    base.extend(arms);
    base
}

#[test]
fn single_key_name_split_with_high_count_arm() {
    let arms = vec![
        build(Obj { property_names: short_string(), max: Some(1), ..obj() }),
        build(Obj { property_names: not(short_string()), max: Some(1), ..obj() }),
        build(Obj { min: 2, ..obj() }),
    ];
    assert!(any_of_single_property_name_partition_is_universal(&with(non_objects(), arms)));
}

#[test]
fn single_key_name_split_needs_every_piece() {
    let no_high = vec![
        build(Obj { property_names: short_string(), ..obj() }),
        build(Obj { property_names: not(short_string()), ..obj() }),
    ];
    assert!(!any_of_single_property_name_partition_is_universal(&with(non_objects(), no_high)));
    let high_too_big = vec![
        build(Obj { property_names: short_string(), ..obj() }),
        build(Obj { property_names: not(short_string()), ..obj() }),
        build(Obj { min: 3, ..obj() }),
    ];
    assert!(!any_of_single_property_name_partition_is_universal(&with(non_objects(), high_too_big)));
    let excludes_singletons = vec![
        build(Obj { property_names: short_string(), max: Some(0), ..obj() }),
        build(Obj { property_names: not(short_string()), ..obj() }),
        build(Obj { min: 2, ..obj() }),
    ];
    assert!(!any_of_single_property_name_partition_is_universal(&with(non_objects(), excludes_singletons)));
    let arms = vec![
        build(Obj { property_names: short_string(), ..obj() }),
        build(Obj { property_names: not(short_string()), ..obj() }),
        build(Obj { min: 2, ..obj() }),
    ];
    assert!(!any_of_single_property_name_partition_is_universal(&arms));
}

#[test]
fn presence_and_absence_of_one_property() {
    let arms = vec![
        build(Obj { required: vec!["a".to_string()], properties: vec![("a".to_string(), any())], ..obj() }),
        build(Obj { properties: vec![("a".to_string(), string())], ..obj() }),
    ];
    assert!(any_of_property_presence_cover_is_universal(&with(non_objects(), arms)));
    let through_dependencies = vec![
        build(Obj { required: vec!["a".to_string()], dependent_required: vec![("b".to_string(), vec!["a".to_string()])], ..obj() }),
        build(Obj { dependent_required: vec![("a".to_string(), vec!["c".to_string()])], ..obj() }),
    ];
    assert!(any_of_property_presence_cover_is_universal(&with(non_objects(), through_dependencies)));
}

#[test]
fn presence_cover_rejections() {
    let other_required = vec![
        build(Obj { required: vec!["a".to_string(), "b".to_string()], ..obj() }),
        build(Obj { properties: vec![("a".to_string(), string())], ..obj() }),
    ];
    assert!(!any_of_property_presence_cover_is_universal(&with(non_objects(), other_required)));
    let constrained_value = vec![
        build(Obj { required: vec!["a".to_string()], properties: vec![("a".to_string(), string())], ..obj() }),
        build(Obj { properties: vec![("a".to_string(), string())], ..obj() }),
    ];
    assert!(!any_of_property_presence_cover_is_universal(&with(non_objects(), constrained_value)));
    let no_name_named = vec![build(obj())];
    assert!(!any_of_property_presence_cover_is_universal(&with(non_objects(), no_name_named)));
    let arms = vec![
        build(Obj { required: vec!["a".to_string()], ..obj() }),
        build(Obj { properties: vec![("a".to_string(), string())], ..obj() }),
    ];
    assert!(!any_of_property_presence_cover_is_universal(&arms));
}

fn presence(name: &str) -> SchemaNode {
    build(Obj { required: vec![name.to_string()], ..obj() })
}

fn valued(name: &str, value: SchemaNode) -> SchemaNode {
    build(Obj { required: vec![name.to_string()], properties: vec![(name.to_string(), value)], ..obj() })
}

#[test]
fn three_way_property_value_split() {
    let arms = vec![not(presence("a")), valued("a", string()), valued("a", not(string()))];
    assert!(any_of_required_property_value_partition_is_universal(&with(non_objects(), arms)));
    let applicability = node(SchemaNodeKind::AnyOf(vec![string(), presence("a")]));
    let arms = vec![not(applicability), valued("a", string()), valued("a", not(string()))];
    assert!(any_of_required_property_value_partition_is_universal(&with(non_objects(), arms)));
}

#[test]
fn three_way_split_rejections() {
    let other_name = vec![not(presence("b")), valued("a", string()), valued("a", not(string()))];
    assert!(!any_of_required_property_value_partition_is_universal(&with(non_objects(), other_name)));
    let same_sign = vec![not(presence("a")), valued("a", string()), valued("a", string())];
    assert!(!any_of_required_property_value_partition_is_universal(&with(non_objects(), same_sign)));
    let mixed_names = node(SchemaNodeKind::AnyOf(vec![presence("a"), presence("b")]));
    let arms = vec![not(mixed_names), valued("a", string()), valued("a", not(string()))];
    assert!(!any_of_required_property_value_partition_is_universal(&with(non_objects(), arms)));
    let no_absence_arm = vec![valued("a", string()), valued("a", not(string()))];
    assert!(!any_of_required_property_value_partition_is_universal(&with(non_objects(), no_absence_arm)));
    let arms = vec![not(presence("a")), valued("a", string()), valued("a", not(string()))];
    assert!(any_of_required_property_value_partition_is_universal(&arms));
    let arms = vec![presence("a"), valued("a", string()), valued("a", not(string()))];
    assert!(!any_of_required_property_value_partition_is_universal(&arms));
}
