use jsoncompat::counts::{
    object_property_count_interval_bound, object_property_count_intervals_are_disjoint,
    split_allof_object_count_is_impossible, split_allof_object_count_subset_of_object,
};
use jsoncompat::intervals::LengthInterval;
use jsoncompat::json::{JsonNumber, JsonValue};
use jsoncompat::schema::{CountRange, SchemaNode, SchemaNodeKind};

fn node(kind: SchemaNodeKind) -> SchemaNode {
    SchemaNode::new(kind)
}

fn regex_answer(pattern: &str, text: &str) -> Option<bool> {
    regex::Regex::new(pattern).ok().map(|re| re.is_match(text))
}

fn enum_evaluator(schema: &SchemaNode, value: &JsonValue) -> bool {
    match (&schema.kind, value) {
        (SchemaNodeKind::Any, _) => true,
        (SchemaNodeKind::BoolSchema(b), _) => *b,
        (SchemaNodeKind::Enum(values), JsonValue::String(t)) => {
            values.iter().any(|c| matches!(c, JsonValue::String(a) if a == t))
        }
        _ => false,
    }
}

struct Shape {
    properties: Vec<(&'static str, SchemaNode)>,
    required: Vec<&'static str>,
    closed: bool,
    names: SchemaNode,
    min: usize,
    max: Option<usize>,
}

fn shape() -> Shape {
    Shape { properties: vec![], required: vec![], closed: false, names: node(SchemaNodeKind::Any), min: 0, max: None }
}

fn object(s: Shape) -> SchemaNode {
    node(SchemaNodeKind::Object {
        properties: s.properties.into_iter().map(|(n, v)| (n.to_string(), v)).collect(),
        pattern_properties: vec![],
        required: s.required.into_iter().map(|n| n.to_string()).collect(),
        additional: Box::new(node(if s.closed { SchemaNodeKind::BoolSchema(false) } else { SchemaNodeKind::Any })),
        property_names: Box::new(s.names),
        property_count: CountRange { min: s.min, max: s.max },
        dependent_required: vec![],
        enumeration: None,
    })
}

fn bound(schema: &SchemaNode) -> Option<LengthInterval> {
    object_property_count_interval_bound(schema, &regex_answer, &enum_evaluator)
}

fn range(lower: u64, upper: Option<u64>) -> Option<LengthInterval> {
    Some(LengthInterval { lower, upper, empty: false })
}

fn one() -> JsonValue {
    JsonValue::Number(JsonNumber::PosInt(1))
}

#[test]
fn property_count_keywords_bound_members() {
    let mut s = shape();
    s.min = 1;
    s.max = Some(3);
    assert_eq!(bound(&object(s)), range(1, Some(3)));
    let mut required = shape();
    required.required = vec!["a", "b"];
    assert_eq!(bound(&object(required)), range(2, None));
}

#[test]
fn closed_objects_count_their_usable_declared_names() {
    let mut s = shape();
    s.properties = vec![("a", node(SchemaNodeKind::Any)), ("b", node(SchemaNodeKind::BoolSchema(false)))];
    s.closed = true;
    assert_eq!(bound(&object(s)), range(0, Some(1)));
}

#[test]
fn finite_property_names_cap_members() {
    let mut s = shape();
    s.names = node(SchemaNodeKind::Enum(vec![JsonValue::String("x".to_string()), JsonValue::String("y".to_string())]));
    assert_eq!(bound(&object(s)), range(0, Some(2)));
}

#[test]
fn literal_objects_give_exact_counts() {
    let constant = node(SchemaNodeKind::Const(JsonValue::Object(vec![("a".to_string(), one()), ("b".to_string(), one())])));
    assert_eq!(bound(&constant), range(2, Some(2)));
    let not_object = bound(&node(SchemaNodeKind::Const(JsonValue::Null))).unwrap();
    assert!(not_object.empty);
    let listed = node(SchemaNodeKind::Enum(vec![
        JsonValue::Object(vec![("a".to_string(), one())]),
        JsonValue::Null,
        JsonValue::Object(vec![("a".to_string(), one()), ("b".to_string(), one()), ("c".to_string(), one())]),
    ]));
    assert_eq!(bound(&listed), range(1, Some(3)));
    assert_eq!(bound(&node(SchemaNodeKind::Any)), None);
}

#[test]
fn applicators_combine_counts() {
    let mut at_least_two = shape();
    at_least_two.min = 2;
    let mut at_most_one = shape();
    at_most_one.max = Some(1);
    let conflict = node(SchemaNodeKind::AllOf(vec![object(at_least_two), object(at_most_one)]));
    assert!(bound(&conflict).unwrap().empty);
    assert!(split_allof_object_count_is_impossible(&conflict, &regex_answer, &enum_evaluator));
    let mut small = shape();
    small.max = Some(1);
    let mut large = shape();
    large.min = 5;
    large.max = Some(6);
    let union = node(SchemaNodeKind::AnyOf(vec![object(small), object(large)]));
    assert_eq!(bound(&union), range(0, Some(6)));
    assert!(!split_allof_object_count_is_impossible(&union, &regex_answer, &enum_evaluator));
}

#[test]
fn count_intervals_decide_disjointness() {
    let mut small = shape();
    small.max = Some(1);
    let mut large = shape();
    large.min = 2;
    let small = object(small);
    let large = object(large);
    assert!(object_property_count_intervals_are_disjoint(&small, &large, &regex_answer, &enum_evaluator));
    assert!(!object_property_count_intervals_are_disjoint(&small, &small, &regex_answer, &enum_evaluator));
}

#[test]
fn split_allof_count_containment() {
    let mut two_to_three = shape();
    two_to_three.min = 2;
    two_to_three.max = Some(3);
    let mut at_most_five = shape();
    at_most_five.max = Some(5);
    let mut at_most_two = shape();
    at_most_two.max = Some(2);
    let sub = object(two_to_three);
    assert!(split_allof_object_count_subset_of_object(&sub, &object(at_most_five), &regex_answer, &enum_evaluator));
    assert!(!split_allof_object_count_subset_of_object(&sub, &object(at_most_two), &regex_answer, &enum_evaluator));
    let never = node(SchemaNodeKind::BoolSchema(false));
    assert!(split_allof_object_count_subset_of_object(&never, &sub, &regex_answer, &enum_evaluator));
    let any = node(SchemaNodeKind::Any);
    assert!(!split_allof_object_count_subset_of_object(&any, &sub, &regex_answer, &enum_evaluator));
}
