use jsoncompat::json::{JsonNumber, JsonValue};
use jsoncompat::properties::{
    guaranteed_property_name_closure, schema_accepts_all_objects_with_property, schema_guarantees_property_name,
    schema_guarantees_property_name_for_objects,
};
use jsoncompat::schema::{CountRange, SchemaNode, SchemaNodeKind};

fn node(kind: SchemaNodeKind) -> SchemaNode {
    SchemaNode::new(kind)
}

fn names(items: &[&str]) -> Vec<String> {
    items.iter().map(|s| s.to_string()).collect()
}

fn object(required: &[&str], deps: Vec<(String, Vec<String>)>) -> SchemaNode {
    node(SchemaNodeKind::Object {
        properties: vec![],
        pattern_properties: vec![],
        required: names(required),
        additional: Box::new(node(SchemaNodeKind::Any)),
        property_names: Box::new(node(SchemaNodeKind::Any)),
        property_count: CountRange { min: 0, max: None },
        dependent_required: deps,
        enumeration: None,
    })
}

fn literal(members: &[&str]) -> JsonValue {
    JsonValue::Object(members.iter().map(|k| (k.to_string(), JsonValue::Number(JsonNumber::PosInt(1)))).collect())
}

fn string() -> SchemaNode {
    node(SchemaNodeKind::String { length: CountRange { min: 0, max: None }, pattern: None, format: None, enumeration: None })
}

fn sorted(mut v: Vec<String>) -> Vec<String> {
    v.sort();
    v
}

#[test]
fn closure_of_required_and_dependencies() {
    let s = object(&["a"], vec![("a".to_string(), names(&["b"])), ("z".to_string(), names(&["w"]))]);
    assert_eq!(sorted(guaranteed_property_name_closure(&s)), names(&["a", "b"]));
    let all = node(SchemaNodeKind::AllOf(vec![object(&["a"], vec![]), object(&[], vec![("a".to_string(), names(&["c"]))])]));
    assert_eq!(sorted(guaranteed_property_name_closure(&all)), names(&["a", "c"]));
}

#[test]
fn closure_of_literals() {
    assert_eq!(sorted(guaranteed_property_name_closure(&node(SchemaNodeKind::Const(literal(&["k", "j"]))))), names(&["j", "k"]));
    let common = node(SchemaNodeKind::Enum(vec![literal(&["a", "b"]), literal(&["b", "c"])]));
    assert_eq!(guaranteed_property_name_closure(&common), names(&["b"]));
    let mixed = node(SchemaNodeKind::Enum(vec![literal(&["a"]), JsonValue::Null]));
    assert_eq!(guaranteed_property_name_closure(&mixed), names(&[]));
    assert_eq!(guaranteed_property_name_closure(&node(SchemaNodeKind::Enum(vec![]))), names(&[]));
    assert_eq!(guaranteed_property_name_closure(&node(SchemaNodeKind::AnyOf(vec![object(&["a"], vec![])]))), names(&[]));
}

#[test]
fn guaranteed_names_through_applicators() {
    let union = node(SchemaNodeKind::AnyOf(vec![object(&["a"], vec![]), object(&["a", "b"], vec![])]));
    assert!(schema_guarantees_property_name(&union, "a"));
    assert!(!schema_guarantees_property_name(&union, "b"));
    assert!(schema_guarantees_property_name(&node(SchemaNodeKind::BoolSchema(false)), "q"));
    assert!(!schema_guarantees_property_name(&node(SchemaNodeKind::AnyOf(vec![])), "q"));
    let one_sided = node(SchemaNodeKind::IfThenElse {
        if_schema: Box::new(node(SchemaNodeKind::Any)),
        then_schema: Some(Box::new(object(&["a"], vec![]))),
        else_schema: None,
    });
    assert!(!schema_guarantees_property_name(&one_sided, "a"));
    let both = node(SchemaNodeKind::IfThenElse {
        if_schema: Box::new(node(SchemaNodeKind::Any)),
        then_schema: Some(Box::new(object(&["a"], vec![]))),
        else_schema: Some(Box::new(node(SchemaNodeKind::Const(literal(&["a"]))))),
    });
    assert!(schema_guarantees_property_name(&both, "a"));
    let all = node(SchemaNodeKind::AllOf(vec![string(), object(&[], vec![("k".to_string(), names(&["m"]))]), object(&["k"], vec![])]));
    assert!(schema_guarantees_property_name(&all, "m"));
}

#[test]
fn guaranteed_names_for_objects_only() {
    let union = node(SchemaNodeKind::AnyOf(vec![object(&["a"], vec![]), string()]));
    assert!(!schema_guarantees_property_name(&union, "a"));
    assert!(schema_guarantees_property_name_for_objects(&union, "a"));
    assert!(schema_guarantees_property_name_for_objects(&node(SchemaNodeKind::Const(JsonValue::Null)), "a"));
    assert!(!schema_guarantees_property_name_for_objects(&node(SchemaNodeKind::BoolSchema(true)), "a"));
    let mixed = node(SchemaNodeKind::Enum(vec![literal(&["a"]), JsonValue::Bool(true)]));
    assert!(schema_guarantees_property_name_for_objects(&mixed, "a"));
    assert!(!schema_guarantees_property_name(&mixed, "a"));
    let decided = node(SchemaNodeKind::IfThenElse {
        if_schema: Box::new(string()),
        then_schema: None,
        else_schema: Some(Box::new(object(&["a"], vec![]))),
    });
    assert!(schema_guarantees_property_name_for_objects(&decided, "a"));
}

#[test]
fn objects_with_a_property_are_all_accepted() {
    assert!(schema_accepts_all_objects_with_property(&object(&["p"], vec![]), "p"));
    assert!(!schema_accepts_all_objects_with_property(&object(&["p"], vec![]), "q"));
    assert!(schema_accepts_all_objects_with_property(&node(SchemaNodeKind::Any), "q"));
    assert!(!schema_accepts_all_objects_with_property(&node(SchemaNodeKind::AllOf(vec![])), "q"));
    let open_conditional = node(SchemaNodeKind::IfThenElse {
        if_schema: Box::new(string()),
        then_schema: None,
        else_schema: None,
    });
    assert!(schema_accepts_all_objects_with_property(&open_conditional, "q"));
    let union = node(SchemaNodeKind::AnyOf(vec![string(), object(&[], vec![])]));
    assert!(schema_accepts_all_objects_with_property(&union, "q"));
    let counted = node(SchemaNodeKind::Object {
        properties: vec![],
        pattern_properties: vec![],
        required: vec![],
        additional: Box::new(node(SchemaNodeKind::Any)),
        property_names: Box::new(node(SchemaNodeKind::Any)),
        property_count: CountRange { min: 2, max: None },
        dependent_required: vec![],
        enumeration: None,
    });
    assert!(!schema_accepts_all_objects_with_property(&counted, "q"));
    let typed_property = node(SchemaNodeKind::Object {
        properties: vec![("q".to_string(), string())],
        pattern_properties: vec![],
        required: vec![],
        additional: Box::new(node(SchemaNodeKind::Any)),
        property_names: Box::new(node(SchemaNodeKind::Any)),
        property_count: CountRange { min: 0, max: None },
        dependent_required: vec![],
        enumeration: None,
    });
    assert!(!schema_accepts_all_objects_with_property(&typed_property, "q"));
}
