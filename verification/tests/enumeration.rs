use jsoncompat::enumeration::constrained_enumeration;
use jsoncompat::json::{JsonNumber, JsonValue};
use jsoncompat::schema::{CountRange, SchemaNode, SchemaNodeKind};

#[test]
fn typed_nodes_give_their_enumeration() {
    let values = vec![JsonValue::String("a".to_string()), JsonValue::String("b".to_string())];
    let s = SchemaNode::new(SchemaNodeKind::String {
        length: CountRange { min: 0, max: None },
        pattern: None,
        format: None,
        enumeration: Some(values),
    });
    let found = constrained_enumeration(&s).expect("string enumeration");
    assert_eq!(found.len(), 2);
    assert!(matches!(&found[0], JsonValue::String(t) if t == "a"));
    assert!(matches!(&found[1], JsonValue::String(t) if t == "b"));
    let n = SchemaNode::new(SchemaNodeKind::Null { enumeration: Some(vec![JsonValue::Null]) });
    let found = constrained_enumeration(&n).expect("null enumeration");
    assert!(found.len() == 1 && matches!(found[0], JsonValue::Null));
}

#[test]
fn other_nodes_give_none() {
    let open = SchemaNode::new(SchemaNodeKind::Boolean { enumeration: None });
    assert!(constrained_enumeration(&open).is_none());
    let literal = SchemaNode::new(SchemaNodeKind::Enum(vec![JsonValue::Number(JsonNumber::PosInt(1))]));
    assert!(constrained_enumeration(&literal).is_none());
    let constant = SchemaNode::new(SchemaNodeKind::Const(JsonValue::Bool(true)));
    assert!(constrained_enumeration(&constant).is_none());
}
