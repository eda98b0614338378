use jsoncompat::equivalence::schemas_obviously_equivalent;
use jsoncompat::json::{JsonNumber, JsonValue};
use jsoncompat::schema::{
    CountRange, IntegerBounds, NumberBound, NumberBounds, NumberMultipleOf, PatternConstraint, PatternSupport, SchemaNode,
    SchemaNodeKind,
};

fn node(kind: SchemaNodeKind) -> SchemaNode {
    SchemaNode::new(kind)
}

fn num(n: u64) -> JsonValue {
    JsonValue::Number(JsonNumber::PosInt(n))
}

fn number(lower: f64, step: Option<f64>) -> SchemaNode {
    node(SchemaNodeKind::Number {
        bounds: NumberBounds { lower: NumberBound::Inclusive(lower.to_bits()), upper: NumberBound::Unbounded },
        multiple_of: step.map(|v| NumberMultipleOf { value: v.to_bits(), divisor: None }),
        enumeration: None,
    })
}

fn string(min: u64, pattern: Option<&str>) -> SchemaNode {
    node(SchemaNodeKind::String {
        length: CountRange { min, max: None },
        pattern: pattern.map(|p| PatternConstraint { source: p.to_string(), support: PatternSupport::Supported }),
        format: None,
        enumeration: None,
    })
}

#[test]
fn literals_are_compared_by_value() {
    assert!(schemas_obviously_equivalent(&node(SchemaNodeKind::Const(num(1))), &node(SchemaNodeKind::Const(num(1)))));
    assert!(!schemas_obviously_equivalent(&node(SchemaNodeKind::Const(num(1))), &node(SchemaNodeKind::Const(num(2)))));
    assert!(schemas_obviously_equivalent(&node(SchemaNodeKind::Const(num(1))), &node(SchemaNodeKind::Enum(vec![num(1)]))));
    assert!(schemas_obviously_equivalent(&node(SchemaNodeKind::Enum(vec![num(1)])), &node(SchemaNodeKind::Const(num(1)))));
    assert!(!schemas_obviously_equivalent(&node(SchemaNodeKind::Enum(vec![num(1), num(2)])), &node(SchemaNodeKind::Const(num(1)))));
    assert!(schemas_obviously_equivalent(
        &node(SchemaNodeKind::Enum(vec![num(1), num(2)])),
        &node(SchemaNodeKind::Enum(vec![num(2), num(1)]))
    ));
    assert!(!schemas_obviously_equivalent(
        &node(SchemaNodeKind::Enum(vec![num(1)])),
        &node(SchemaNodeKind::Enum(vec![num(1), num(2)]))
    ));
    assert!(!schemas_obviously_equivalent(
        &node(SchemaNodeKind::Enum(vec![num(1), num(1)])),
        &node(SchemaNodeKind::Enum(vec![num(1), num(2)]))
    ));
    assert!(schemas_obviously_equivalent(
        &node(SchemaNodeKind::Enum(vec![num(1), num(1)])),
        &node(SchemaNodeKind::Enum(vec![num(1), num(1)]))
    ));
}

#[test]
fn primitive_keywords_are_compared() {
    assert!(schemas_obviously_equivalent(&node(SchemaNodeKind::Any), &node(SchemaNodeKind::Any)));
    assert!(schemas_obviously_equivalent(&node(SchemaNodeKind::BoolSchema(false)), &node(SchemaNodeKind::BoolSchema(false))));
    assert!(!schemas_obviously_equivalent(&node(SchemaNodeKind::BoolSchema(false)), &node(SchemaNodeKind::BoolSchema(true))));
    assert!(schemas_obviously_equivalent(&string(1, Some("^a")), &string(1, Some("^a"))));
    assert!(!schemas_obviously_equivalent(&string(1, Some("^a")), &string(1, Some("^b"))));
    assert!(!schemas_obviously_equivalent(&string(1, None), &string(2, None)));
    assert!(schemas_obviously_equivalent(&number(0.0, Some(0.5)), &number(-0.0, Some(0.5))));
    assert!(!schemas_obviously_equivalent(&number(0.0, Some(0.5)), &number(0.0, None)));
    assert!(!schemas_obviously_equivalent(&number(f64::NAN, None), &number(f64::NAN, None)));
    let integer = |lower: Option<i64>| node(SchemaNodeKind::Integer {
        bounds: IntegerBounds { lower, upper: None },
        multiple_of: None,
        enumeration: None,
    });
    assert!(schemas_obviously_equivalent(&integer(Some(3)), &integer(Some(3))));
    assert!(!schemas_obviously_equivalent(&integer(Some(3)), &integer(None)));
    assert!(!schemas_obviously_equivalent(&integer(None), &number(0.0, None)));
}
