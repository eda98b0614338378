use jsoncompat::json::{JsonValue, JSON_TYPE_ALL, JSON_TYPE_NULL, JSON_TYPE_NUMBER, JSON_TYPE_STRING};
use jsoncompat::schema::{CountRange, SchemaNode, SchemaNodeKind};
use jsoncompat::types::{
    possible_json_type_mask, schema_is_trivially_universal, schema_may_accept_json_type,
    schema_obviously_accepts_json_type, whole_json_types_accepted_mask,
};

fn node(kind: SchemaNodeKind) -> SchemaNode {
    SchemaNode::new(kind)
}

fn string_len(min: u64, max: Option<u64>) -> SchemaNode {
    node(SchemaNodeKind::String { length: CountRange { min, max }, pattern: None, format: None, enumeration: None })
}

#[test]
fn possible_type_masks() {
    assert_eq!(possible_json_type_mask(&node(SchemaNodeKind::Any)), JSON_TYPE_ALL);
    assert_eq!(possible_json_type_mask(&string_len(1, None)), JSON_TYPE_STRING);
    assert_eq!(possible_json_type_mask(&node(SchemaNodeKind::BoolSchema(false))), 0);
    assert_eq!(possible_json_type_mask(&node(SchemaNodeKind::Not(Box::new(node(SchemaNodeKind::Any))))), 0);
    assert_eq!(
        possible_json_type_mask(&node(SchemaNodeKind::Enum(vec![JsonValue::Null, JsonValue::String("a".to_string())]))),
        JSON_TYPE_NULL | JSON_TYPE_STRING
    );
    let not_string = node(SchemaNodeKind::Not(Box::new(string_len(0, None))));
    assert_eq!(possible_json_type_mask(&not_string), JSON_TYPE_ALL & !JSON_TYPE_STRING);
}

#[test]
fn whole_type_masks() {
    assert_eq!(whole_json_types_accepted_mask(&node(SchemaNodeKind::Any)), JSON_TYPE_ALL);
    assert_eq!(whole_json_types_accepted_mask(&string_len(0, None)), JSON_TYPE_STRING);
    assert_eq!(whole_json_types_accepted_mask(&string_len(1, None)), 0);
    assert!(schema_obviously_accepts_json_type(&node(SchemaNodeKind::Const(JsonValue::Null)), JSON_TYPE_NULL));
    assert!(!schema_may_accept_json_type(&string_len(0, None), JSON_TYPE_NUMBER));
}

#[test]
fn trivially_universal_shapes() {
    assert!(schema_is_trivially_universal(&node(SchemaNodeKind::Any)));
    assert!(schema_is_trivially_universal(&node(SchemaNodeKind::BoolSchema(true))));
    assert!(schema_is_trivially_universal(&node(SchemaNodeKind::Not(Box::new(node(SchemaNodeKind::BoolSchema(false)))))));
    assert!(schema_is_trivially_universal(&node(SchemaNodeKind::AllOf(vec![]))));
    assert!(!schema_is_trivially_universal(&node(SchemaNodeKind::AnyOf(vec![]))));
    assert!(schema_is_trivially_universal(&node(SchemaNodeKind::AnyOf(vec![string_len(1, None), node(SchemaNodeKind::Any)]))));
    assert!(!schema_is_trivially_universal(&string_len(0, None)));
    let open_conditional = node(SchemaNodeKind::IfThenElse {
        if_schema: Box::new(string_len(3, None)),
        then_schema: None,
        else_schema: None,
    });
    assert!(schema_is_trivially_universal(&open_conditional));
}
