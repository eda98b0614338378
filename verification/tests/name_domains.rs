use jsoncompat::json::{JsonNumber, JsonValue};
use jsoncompat::name_domains::{finite_property_name_strings_superset, property_name_schema_may_accept};
use jsoncompat::schema::{CountRange, SchemaNode, SchemaNodeKind};

fn node(kind: SchemaNodeKind) -> SchemaNode {
    SchemaNode::new(kind)
}

fn text(s: &str) -> JsonValue {
    JsonValue::String(s.to_string())
}

/// A small evaluator for the schemas built here.
fn string_evaluator(schema: &SchemaNode, value: &JsonValue) -> bool {
    match (&schema.kind, value) {
        (SchemaNodeKind::Any, _) => true,
        (SchemaNodeKind::BoolSchema(b), _) => *b,
        (SchemaNodeKind::Const(c), v) => matches!((c, v), (JsonValue::String(a), JsonValue::String(b)) if a == b),
        (SchemaNodeKind::Enum(values), JsonValue::String(t)) => {
            values.iter().any(|c| matches!(c, JsonValue::String(a) if a == t))
        }
        (SchemaNodeKind::AllOf(children), v) => children.iter().all(|c| string_evaluator(c, v)),
        (SchemaNodeKind::AnyOf(children), v) => children.iter().any(|c| string_evaluator(c, v)),
        (SchemaNodeKind::String { length, enumeration, .. }, JsonValue::String(t)) => {
            let n = t.chars().count() as u64;
            n >= length.min
                && length.max.is_none_or(|m| n <= m)
                && enumeration.as_ref().is_none_or(|vs| vs.iter().any(|c| matches!(c, JsonValue::String(a) if a == t)))
        }
        _ => false,
    }
}

fn sorted(names: Option<Vec<String>>) -> Option<Vec<String>> {
    names.map(|mut v| {
        v.sort();
        v
    })
}

fn strings(items: &[&str]) -> Option<Vec<String>> {
    Some(items.iter().map(|s| s.to_string()).collect())
}

fn unbounded_string(max: Option<u64>) -> SchemaNode {
    node(SchemaNodeKind::String { length: CountRange { min: 0, max }, pattern: None, format: None, enumeration: None })
}

#[test]
fn literal_domains_list_their_strings() {
    let listed = node(SchemaNodeKind::Enum(vec![text("b"), text("a"), text("b"), JsonValue::Number(JsonNumber::PosInt(1))]));
    assert_eq!(sorted(finite_property_name_strings_superset(&listed, &string_evaluator)), strings(&["a", "b"]));
    let constant = node(SchemaNodeKind::Const(text("x")));
    assert_eq!(finite_property_name_strings_superset(&constant, &string_evaluator), strings(&["x"]));
    assert_eq!(finite_property_name_strings_superset(&unbounded_string(Some(0)), &string_evaluator), strings(&[""]));
    assert_eq!(finite_property_name_strings_superset(&unbounded_string(None), &string_evaluator), None);
}

#[test]
fn schemas_without_strings_have_empty_domains() {
    let never = node(SchemaNodeKind::BoolSchema(false));
    assert_eq!(finite_property_name_strings_superset(&never, &string_evaluator), Some(vec![]));
    let number = node(SchemaNodeKind::Const(JsonValue::Null));
    assert_eq!(finite_property_name_strings_superset(&number, &string_evaluator), Some(vec![]));
}

#[test]
fn applicators_combine_domains() {
    let union = node(SchemaNodeKind::AnyOf(vec![node(SchemaNodeKind::Const(text("a"))), node(SchemaNodeKind::Const(text("b")))]));
    assert_eq!(sorted(finite_property_name_strings_superset(&union, &string_evaluator)), strings(&["a", "b"]));
    let open_union = node(SchemaNodeKind::AnyOf(vec![node(SchemaNodeKind::Const(text("a"))), unbounded_string(None)]));
    assert_eq!(finite_property_name_strings_superset(&open_union, &string_evaluator), None);
    let conjunction = node(SchemaNodeKind::AllOf(vec![
        node(SchemaNodeKind::Enum(vec![text("a"), text("b"), text("c")])),
        node(SchemaNodeKind::Enum(vec![text("b"), text("c"), text("d")])),
    ]));
    assert_eq!(sorted(finite_property_name_strings_superset(&conjunction, &string_evaluator)), strings(&["b", "c"]));
}

#[test]
fn property_name_schema_acceptance_follows_the_evaluator() {
    let listed = node(SchemaNodeKind::Enum(vec![text("a")]));
    assert!(property_name_schema_may_accept(&listed, "a", &string_evaluator));
    assert!(!property_name_schema_may_accept(&listed, "b", &string_evaluator));
}
