use jsoncompat::conflicts::{candidate_property_names, required_vs_forbidden_property_are_disjoint};
use jsoncompat::json::{JsonNumber, JsonValue};
use jsoncompat::schema::{CountRange, SchemaNode, SchemaNodeKind};

fn node(kind: SchemaNodeKind) -> SchemaNode {
    SchemaNode::new(kind)
}

fn pattern_answer(pattern: &str, text: &str) -> Option<bool> {
    regex::Regex::new(pattern).ok().map(|re| re.is_match(text))
}

fn accepts_trivially(schema: &SchemaNode, _value: &JsonValue) -> bool {
    matches!(schema.kind, SchemaNodeKind::Any | SchemaNodeKind::BoolSchema(true))
}

fn object(properties: Vec<(&str, SchemaNode)>, required: Vec<&str>, max: Option<usize>) -> SchemaNode {
    node(SchemaNodeKind::Object {
        properties: properties.into_iter().map(|(n, s)| (n.to_string(), s)).collect(),
        pattern_properties: vec![],
        required: required.into_iter().map(|n| n.to_string()).collect(),
        additional: Box::new(node(SchemaNodeKind::Any)),
        property_names: Box::new(node(SchemaNodeKind::Any)),
        property_count: CountRange { min: 0, max },
        dependent_required: vec![],
        enumeration: None,
    })
}

fn text() -> SchemaNode {
    node(SchemaNodeKind::String { length: CountRange { min: 0, max: None }, pattern: None, format: None, enumeration: None })
}

fn disjoint(left: &SchemaNode, right: &SchemaNode) -> bool {
    required_vs_forbidden_property_are_disjoint(left, right, &pattern_answer, &accepts_trivially)
}

#[test]
fn required_name_forbidden_elsewhere_is_disjoint() {
    let requires_a = object(vec![], vec!["a"], None);
    let forbids_a = object(vec![("a", node(SchemaNodeKind::BoolSchema(false)))], vec![], None);
    let forbids_b = object(vec![("b", node(SchemaNodeKind::BoolSchema(false)))], vec![], None);
    assert!(disjoint(&requires_a, &forbids_a));
    assert!(disjoint(&forbids_a, &requires_a));
    assert!(!disjoint(&requires_a, &forbids_b));
}

#[test]
fn const_members_conflict_with_empty_objects() {
    let constant = node(SchemaNodeKind::Const(JsonValue::Object(vec![(
        "a".to_string(),
        JsonValue::Number(JsonNumber::PosInt(1)),
    )])));
    let empty_only = object(vec![], vec![], Some(0));
    assert!(disjoint(&constant, &empty_only));
}

#[test]
fn object_scoped_tests_apply_when_only_objects_overlap() {
    let requires_a = object(vec![], vec!["a"], None);
    let mixed_forbidding = node(SchemaNodeKind::AnyOf(vec![
        text(),
        object(vec![("a", node(SchemaNodeKind::BoolSchema(false)))], vec![], None),
    ]));
    assert!(disjoint(&requires_a, &mixed_forbidding));
    let mixed_requiring = node(SchemaNodeKind::AnyOf(vec![requires_a, text()]));
    assert!(!disjoint(&mixed_requiring, &mixed_forbidding));
}

#[test]
fn candidate_names_follow_applicators() {
    let a = object(vec![], vec!["a", "b"], None);
    let b = object(vec![], vec!["b", "c"], None);
    let union = node(SchemaNodeKind::AnyOf(vec![a, b]));
    let names = candidate_property_names(&union);
    assert!(names.iter().any(|n| n == "b"));
    assert!(!names.iter().any(|n| n == "a" || n == "c"));
    let conjunction = node(SchemaNodeKind::AllOf(vec![
        object(vec![], vec!["x"], None),
        object(vec![], vec!["y"], None),
    ]));
    let names = candidate_property_names(&conjunction);
    assert!(names.iter().any(|n| n == "x") && names.iter().any(|n| n == "y"));
}
