use jsoncompat::number_covers::{
    any_of_integer_partition_cover_is_universal, any_of_numeric_range_cover_is_universal, integer_bounds_cover_all,
    number_bounds_cover_all,
};
use jsoncompat::schema::{
    CountRange, IntegerBounds, IntegerMultipleOf, NumberBound, NumberBounds, SchemaNode, SchemaNodeKind,
};
use jsoncompat::json::{JsonNumber, JsonValue};

fn node(kind: SchemaNodeKind) -> SchemaNode {
    SchemaNode::new(kind)
}

fn integer(lower: Option<i64>, upper: Option<i64>) -> SchemaNode {
    node(SchemaNodeKind::Integer { bounds: IntegerBounds { lower, upper }, multiple_of: None, enumeration: None })
}

fn not_integer() -> SchemaNode {
    node(SchemaNodeKind::Not(Box::new(integer(None, None))))
}

fn incl(v: f64) -> NumberBound {
    NumberBound::Inclusive(v.to_bits())
}

fn excl(v: f64) -> NumberBound {
    NumberBound::Exclusive(v.to_bits())
}

fn number(lower: NumberBound, upper: NumberBound) -> SchemaNode {
    node(SchemaNodeKind::Number { bounds: NumberBounds { lower, upper }, multiple_of: None, enumeration: None })
}

fn others() -> Vec<SchemaNode> {
    vec![
        node(SchemaNodeKind::Null { enumeration: None }),
        node(SchemaNodeKind::Boolean { enumeration: None }),
        node(SchemaNodeKind::String { length: CountRange { min: 0, max: None }, pattern: None, format: None, enumeration: None }),
        node(SchemaNodeKind::Array {
            prefix_items: vec![],
            items: Box::new(node(SchemaNodeKind::Any)),
            item_count: CountRange { min: 0, max: None },
            contains: None,
            unique_items: false,
            enumeration: None,
        }),
        node(SchemaNodeKind::Object {
            properties: vec![],
            pattern_properties: vec![],
            required: vec![],
            additional: Box::new(node(SchemaNodeKind::Any)),
            property_names: Box::new(node(SchemaNodeKind::Any)),
            property_count: CountRange { min: 0, max: None },
            dependent_required: vec![],
            enumeration: None,
        }),
    ]
}

fn with_others(mut arms: Vec<SchemaNode>) -> Vec<SchemaNode> {
    let mut branches = others();
    branches.append(&mut arms);
    branches
}

#[test]
fn integer_halves_with_fraction_arm_cover_everything() {
    let branches = vec![not_integer(), integer(None, Some(-1)), integer(Some(0), None)];
    assert!(any_of_integer_partition_cover_is_universal(&branches));
    let no_fraction_arm = vec![integer(None, Some(-1)), integer(Some(0), None)];
    assert!(!any_of_integer_partition_cover_is_universal(&no_fraction_arm));
    let gap = vec![not_integer(), integer(None, Some(-1)), integer(Some(1), None)];
    assert!(!any_of_integer_partition_cover_is_universal(&gap));
}

#[test]
fn integer_bridges_and_nesting() {
    let bridged = vec![
        not_integer(),
        integer(None, Some(-1)),
        node(SchemaNodeKind::AnyOf(vec![integer(Some(6), None), integer(Some(0), Some(5))])),
    ];
    assert!(any_of_integer_partition_cover_is_universal(&bridged));
    let enumerated = node(SchemaNodeKind::Integer {
        bounds: IntegerBounds { lower: Some(0), upper: None },
        multiple_of: None,
        enumeration: Some(vec![JsonValue::Number(JsonNumber::PosInt(0))]),
    });
    assert!(!any_of_integer_partition_cover_is_universal(&vec![not_integer(), integer(None, Some(-1)), enumerated]));
    let stepped = node(SchemaNodeKind::Integer {
        bounds: IntegerBounds { lower: Some(0), upper: None },
        multiple_of: Some(IntegerMultipleOf { value: 2.0f64.to_bits(), divisor: Some(2) }),
        enumeration: None,
    });
    assert!(!any_of_integer_partition_cover_is_universal(&vec![not_integer(), integer(None, Some(-1)), stepped]));
    let unit_step = node(SchemaNodeKind::Integer {
        bounds: IntegerBounds { lower: Some(0), upper: None },
        multiple_of: Some(IntegerMultipleOf { value: 1.0f64.to_bits(), divisor: Some(1) }),
        enumeration: None,
    });
    assert!(any_of_integer_partition_cover_is_universal(&vec![not_integer(), integer(None, Some(-1)), unit_step]));
}

#[test]
fn integer_bound_lists() {
    let b = |lower: Option<i64>, upper: Option<i64>| IntegerBounds { lower, upper };
    assert!(integer_bounds_cover_all(&vec![b(None, None)]));
    assert!(integer_bounds_cover_all(&vec![b(Some(i64::MIN), None), b(None, Some(i64::MIN))]));
    assert!(!integer_bounds_cover_all(&vec![b(Some(0), None)]));
    assert!(!integer_bounds_cover_all(&vec![b(None, Some(i64::MAX))]));
    assert!(integer_bounds_cover_all(&vec![b(Some(3), None), b(Some(1), Some(2)), b(None, Some(0))]));
    assert!(!integer_bounds_cover_all(&vec![]));
}

#[test]
fn number_halves_cover_the_line() {
    let branches = with_others(vec![number(NumberBound::Unbounded, excl(0.0)), number(incl(0.0), NumberBound::Unbounded)]);
    assert!(any_of_numeric_range_cover_is_universal(&branches));
    let open_gap = with_others(vec![number(NumberBound::Unbounded, excl(0.0)), number(excl(0.0), NumberBound::Unbounded)]);
    assert!(!any_of_numeric_range_cover_is_universal(&open_gap));
    let overlap = with_others(vec![number(NumberBound::Unbounded, incl(0.0)), number(excl(0.0), NumberBound::Unbounded)]);
    assert!(any_of_numeric_range_cover_is_universal(&overlap));
    let missing_null = vec![number(NumberBound::Unbounded, NumberBound::Unbounded)];
    assert!(!any_of_numeric_range_cover_is_universal(&missing_null));
}

#[test]
fn number_bridges_and_nesting() {
    let bridged = with_others(vec![
        number(NumberBound::Unbounded, incl(-1.0)),
        node(SchemaNodeKind::AnyOf(vec![number(incl(2.5), NumberBound::Unbounded), number(excl(-1.0), excl(2.5))])),
    ]);
    assert!(any_of_numeric_range_cover_is_universal(&bridged));
    let stepped = node(SchemaNodeKind::Number {
        bounds: NumberBounds { lower: incl(0.0), upper: NumberBound::Unbounded },
        multiple_of: Some(jsoncompat::schema::NumberMultipleOf { value: 0.5f64.to_bits(), divisor: None }),
        enumeration: None,
    });
    let with_step = with_others(vec![number(NumberBound::Unbounded, excl(0.0)), stepped]);
    assert!(!any_of_numeric_range_cover_is_universal(&with_step));
}

#[test]
fn number_bound_lists() {
    let b = |lower: NumberBound, upper: NumberBound| NumberBounds { lower, upper };
    assert!(number_bounds_cover_all(&vec![b(NumberBound::Unbounded, NumberBound::Unbounded)]));
    assert!(!number_bounds_cover_all(&vec![b(incl(0.0), NumberBound::Unbounded)]));
    assert!(!number_bounds_cover_all(&vec![b(NumberBound::Unbounded, incl(5.0)), b(excl(5.0), incl(6.0))]));
    assert!(number_bounds_cover_all(&vec![
        b(excl(5.0), NumberBound::Unbounded),
        b(NumberBound::Unbounded, incl(1.0)),
        b(incl(1.0), incl(5.0)),
    ]));
    assert!(!number_bounds_cover_all(&vec![b(NumberBound::Unbounded, excl(1.0)), b(excl(1.0), NumberBound::Unbounded)]));
    assert!(!number_bounds_cover_all(&vec![b(NumberBound::Unbounded, incl(f64::NAN)), b(incl(0.0), NumberBound::Unbounded)]));
}

#[test]
fn fractional_step_arm_is_not_a_plain_integer_range() {
    let fractional = node(SchemaNodeKind::Integer {
        bounds: IntegerBounds { lower: None, upper: None },
        multiple_of: Some(IntegerMultipleOf { value: 2.5f64.to_bits(), divisor: None }),
        enumeration: None,
    });
    assert!(!any_of_integer_partition_cover_is_universal(&vec![not_integer(), fractional]));
    assert!(any_of_integer_partition_cover_is_universal(&vec![not_integer(), integer(None, None)]));
}
