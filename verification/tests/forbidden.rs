use jsoncompat::forbidden::{schema_forbids_property_name, schema_forbids_property_name_for_objects};
use jsoncompat::json::{JsonNumber, JsonValue};
use jsoncompat::schema::{
    CountRange, PatternConstraint, PatternProperty, PatternSupport, SchemaNode, SchemaNodeKind,
};

fn node(kind: SchemaNodeKind) -> SchemaNode {
    SchemaNode::new(kind)
}

fn matches_pattern(pattern: &str, text: &str) -> Option<bool> {
    regex::Regex::new(pattern).ok().map(|re| re.is_match(text))
}

/// Accepts what `true`/`{}` accept and nothing else: enough for schemas
/// whose enumerations these tests never consult.
fn evaluate(schema: &SchemaNode, _value: &JsonValue) -> bool {
    matches!(schema.kind, SchemaNodeKind::Any | SchemaNodeKind::BoolSchema(true))
}

struct ObjectSpec {
    properties: Vec<(&'static str, SchemaNode)>,
    patterns: Vec<(&'static str, PatternSupport, SchemaNode)>,
    required: Vec<&'static str>,
    additional: SchemaNode,
    property_names: SchemaNode,
    max: Option<usize>,
}

fn open_object() -> ObjectSpec {
    ObjectSpec {
        properties: vec![],
        patterns: vec![],
        required: vec![],
        additional: node(SchemaNodeKind::Any),
        property_names: node(SchemaNodeKind::Any),
        max: None,
    }
}

fn object(spec: ObjectSpec) -> SchemaNode {
    node(SchemaNodeKind::Object {
        properties: spec.properties.into_iter().map(|(n, s)| (n.to_string(), s)).collect(),
        pattern_properties: spec
            .patterns
            .into_iter()
            .map(|(p, support, schema)| PatternProperty {
                pattern: PatternConstraint { source: p.to_string(), support },
                schema,
            })
            .collect(),
        required: spec.required.into_iter().map(|n| n.to_string()).collect(),
        additional: Box::new(spec.additional),
        property_names: Box::new(spec.property_names),
        property_count: CountRange { min: 0, max: spec.max },
        dependent_required: vec![],
        enumeration: None,
    })
}

fn forbids(schema: &SchemaNode, name: &str) -> bool {
    schema_forbids_property_name(schema, name, &matches_pattern, &evaluate)
}

fn forbids_in_objects(schema: &SchemaNode, name: &str) -> bool {
    schema_forbids_property_name_for_objects(schema, name, &matches_pattern, &evaluate)
}

#[test]
fn false_property_schema_forbids_its_name() {
    let mut spec = open_object();
    spec.properties = vec![("secret", node(SchemaNodeKind::BoolSchema(false)))];
    let schema = object(spec);
    assert!(forbids(&schema, "secret"));
    assert!(!forbids(&schema, "other"));
}

#[test]
fn property_count_caps_forbid_extra_names() {
    let mut none_allowed = open_object();
    none_allowed.max = Some(0);
    assert!(forbids(&object(none_allowed), "anything"));
    let mut full = open_object();
    full.required = vec!["a", "b"];
    full.max = Some(2);
    let full = object(full);
    assert!(forbids(&full, "c"));
    assert!(!forbids(&full, "a"));
}

#[test]
fn false_pattern_schema_forbids_matching_names() {
    let mut spec = open_object();
    spec.patterns = vec![("^x-", PatternSupport::Supported, node(SchemaNodeKind::BoolSchema(false)))];
    let schema = object(spec);
    assert!(forbids(&schema, "x-internal"));
    assert!(!forbids(&schema, "internal"));
}

#[test]
fn property_names_schema_forbids_rejected_names() {
    let mut spec = open_object();
    spec.property_names = node(SchemaNodeKind::Const(JsonValue::String("a".to_string())));
    let schema = object(spec);
    assert!(forbids(&schema, "b"));
    assert!(!forbids(&schema, "a"));
}

#[test]
fn closed_objects_forbid_undeclared_names() {
    let mut spec = open_object();
    spec.properties = vec![("a", node(SchemaNodeKind::Any))];
    spec.patterns = vec![("^x-", PatternSupport::Supported, node(SchemaNodeKind::Any))];
    spec.additional = node(SchemaNodeKind::BoolSchema(false));
    let schema = object(spec);
    assert!(forbids(&schema, "b"));
    assert!(!forbids(&schema, "a"));
    assert!(!forbids(&schema, "x-b"));
    let mut unsupported = open_object();
    unsupported.patterns = vec![("(?<=x)b", PatternSupport::Unsupported, node(SchemaNodeKind::Any))];
    unsupported.additional = node(SchemaNodeKind::BoolSchema(false));
    assert!(!forbids(&object(unsupported), "b"));
}

#[test]
fn literal_values_forbid_missing_members() {
    let constant = node(SchemaNodeKind::Const(JsonValue::Object(vec![(
        "a".to_string(),
        JsonValue::Number(JsonNumber::PosInt(1)),
    )])));
    assert!(forbids(&constant, "b"));
    assert!(!forbids(&constant, "a"));
    assert!(forbids(&node(SchemaNodeKind::Const(JsonValue::Null)), "a"));
    let listed = node(SchemaNodeKind::Enum(vec![JsonValue::Null, JsonValue::Object(vec![])]));
    assert!(forbids(&listed, "a"));
}

#[test]
fn applicators_combine_forbidden_names() {
    let mut spec = open_object();
    spec.properties = vec![("a", node(SchemaNodeKind::BoolSchema(false)))];
    let forbidding = object(spec);
    let conjunction = node(SchemaNodeKind::AllOf(vec![node(SchemaNodeKind::Any), forbidding]));
    assert!(forbids(&conjunction, "a"));
    assert!(!forbids(&node(SchemaNodeKind::AnyOf(vec![])), "a"));
    let union = node(SchemaNodeKind::AnyOf(vec![
        node(SchemaNodeKind::Const(JsonValue::Object(vec![]))),
        node(SchemaNodeKind::BoolSchema(false)),
    ]));
    assert!(forbids(&union, "a"));
    assert!(forbids(&node(SchemaNodeKind::Not(Box::new(node(SchemaNodeKind::Any)))), "a"));
}

#[test]
fn object_scoped_test_ignores_non_object_branches() {
    let mut spec = open_object();
    spec.properties = vec![("a", node(SchemaNodeKind::BoolSchema(false)))];
    let forbidding = object(spec);
    let text = node(SchemaNodeKind::String {
        length: CountRange { min: 0, max: None },
        pattern: None,
        format: None,
        enumeration: None,
    });
    let union = node(SchemaNodeKind::AnyOf(vec![text, forbidding]));
    assert!(!forbids(&union, "a"));
    assert!(forbids_in_objects(&union, "a"));
    assert!(!forbids_in_objects(&union, "b"));
}
