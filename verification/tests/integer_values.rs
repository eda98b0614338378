use jsoncompat::integer_values::finite_integer_number_values;
use jsoncompat::json::{JsonNumber, JsonValue};
use jsoncompat::schema::{IntegerBounds, NumberBound, NumberBounds, SchemaNode, SchemaNodeKind};

fn number(lower: NumberBound, upper: NumberBound, enumeration: Option<Vec<JsonValue>>) -> SchemaNode {
    SchemaNode::new(SchemaNodeKind::Number { bounds: NumberBounds { lower, upper }, multiple_of: None, enumeration })
}

fn inclusive(x: f64) -> NumberBound {
    NumberBound::Inclusive(x.to_bits())
}

fn accepts_all(_: &SchemaNode, _: &JsonValue) -> bool {
    true
}

fn rejects_all(_: &SchemaNode, _: &JsonValue) -> bool {
    false
}

fn is_int(v: &JsonValue, k: i64) -> bool {
    match v {
        JsonValue::Number(JsonNumber::PosInt(u)) => k >= 0 && *u == k as u64,
        JsonValue::Number(JsonNumber::NegInt(i)) => *i == k,
        _ => false,
    }
}

#[test]
fn integer_enumerations_are_listed() {
    let schema = number(
        NumberBound::Unbounded,
        NumberBound::Unbounded,
        Some(vec![JsonValue::Number(JsonNumber::PosInt(1)), JsonValue::Number(JsonNumber::NegInt(-2))]),
    );
    let values = finite_integer_number_values(&schema, &accepts_all).unwrap();
    assert_eq!(values.len(), 2);
    assert!(is_int(&values[0], 1) && is_int(&values[1], -2));
    let fractional = number(
        NumberBound::Unbounded,
        NumberBound::Unbounded,
        Some(vec![JsonValue::Number(JsonNumber::Float(1.5f64.to_bits()))]),
    );
    assert!(finite_integer_number_values(&fractional, &accepts_all).is_none());
}

#[test]
fn equal_inclusive_integer_bounds_pin_one_value() {
    let pinned = number(inclusive(3.0), inclusive(3.0), None);
    let values = finite_integer_number_values(&pinned, &accepts_all).unwrap();
    assert_eq!(values.len(), 1);
    assert!(is_int(&values[0], 3));
    assert_eq!(finite_integer_number_values(&pinned, &rejects_all).unwrap().len(), 0);
    let negative = number(inclusive(-7.0), inclusive(-7.0), None);
    assert!(is_int(&finite_integer_number_values(&negative, &accepts_all).unwrap()[0], -7));
    let zeros = number(inclusive(-0.0), inclusive(0.0), None);
    assert!(is_int(&finite_integer_number_values(&zeros, &accepts_all).unwrap()[0], 0));
}

#[test]
fn other_ranges_are_not_finite_integers() {
    assert!(finite_integer_number_values(&number(inclusive(3.0), inclusive(4.0), None), &accepts_all).is_none());
    assert!(finite_integer_number_values(&number(inclusive(2.5), inclusive(2.5), None), &accepts_all).is_none());
    let exclusive = number(NumberBound::Exclusive(3.0f64.to_bits()), inclusive(4.0), None);
    assert!(finite_integer_number_values(&exclusive, &accepts_all).is_none());
    let huge = number(inclusive(9007199254740992.0), inclusive(9007199254740992.0), None);
    assert!(finite_integer_number_values(&huge, &accepts_all).is_none());
    assert!(finite_integer_number_values(&number(NumberBound::Unbounded, inclusive(3.0), None), &accepts_all).is_none());
}

#[test]
fn crossed_ranges_and_other_kinds_are_unknown() {
    // A single number node does not mark crossed bounds as empty.
    let crossed = number(inclusive(5.0), inclusive(3.0), None);
    assert!(finite_integer_number_values(&crossed, &accepts_all).is_none());
    let integer = SchemaNode::new(SchemaNodeKind::Integer {
        bounds: IntegerBounds { lower: Some(1), upper: Some(1) },
        multiple_of: None,
        enumeration: None,
    });
    assert!(finite_integer_number_values(&integer, &accepts_all).is_none());
}
