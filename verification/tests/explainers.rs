use jsoncompat::explainers::{
    integer_constraint_gap, ConstraintGap,
    array_index_can_exist, check_enum_inclusion, explain_enumeration_gap, explain_schema_kind_gap, format_count_range,
    format_integer_bounds, integer_multiple_of_constraints_subsumed, number_lower_delimiter, number_upper_delimiter,
    schema_kind_name,
};
use jsoncompat::json::{JsonNumber, JsonValue};
use jsoncompat::schema::{CountRange, IntegerBounds, IntegerMultipleOf, NumberBound, NumberBounds, SchemaNode, SchemaNodeKind};

fn node(kind: SchemaNodeKind) -> SchemaNode {
    SchemaNode::new(kind)
}

fn num(n: u64) -> JsonValue {
    JsonValue::Number(JsonNumber::PosInt(n))
}

fn multiple(d: i128) -> IntegerMultipleOf {
    IntegerMultipleOf { value: (d as f64).to_bits(), divisor: Some(d) }
}

#[test]
fn count_ranges_are_spelled() {
    assert_eq!(format_count_range(CountRange { min: 3, max: Some(3) }), "3");
    assert_eq!(format_count_range(CountRange { min: 1, max: Some(40) }), "1..=40");
    assert_eq!(format_count_range(CountRange { min: 2, max: None }), "2..");
    assert_eq!(format_count_range(CountRange { min: 0, max: Some(u64::MAX) }), "0..=18446744073709551615");
}

#[test]
fn integer_bounds_are_spelled() {
    assert_eq!(format_integer_bounds(IntegerBounds { lower: None, upper: Some(-5) }), "[-inf, -5]");
    assert_eq!(format_integer_bounds(IntegerBounds { lower: Some(i64::MIN), upper: None }), "[-9223372036854775808, +inf]");
    assert_eq!(format_integer_bounds(IntegerBounds { lower: Some(0), upper: Some(10) }), "[0, 10]");
}

#[test]
fn number_range_delimiters() {
    assert_eq!(number_lower_delimiter(NumberBound::Exclusive(1.0f64.to_bits())), "(");
    assert_eq!(number_lower_delimiter(NumberBound::Inclusive(1.0f64.to_bits())), "[");
    assert_eq!(number_lower_delimiter(NumberBound::Unbounded), "[");
    assert_eq!(number_upper_delimiter(NumberBound::Exclusive(1.0f64.to_bits())), ")");
    assert_eq!(number_upper_delimiter(NumberBound::Unbounded), "]");
}

#[test]
fn array_positions() {
    assert!(array_index_can_exist(Some(3), 2));
    assert!(!array_index_can_exist(Some(3), 3));
    assert!(!array_index_can_exist(Some(0), 0));
    assert!(array_index_can_exist(None, usize::MAX));
}

#[test]
fn kind_gap_explanations() {
    let string = node(SchemaNodeKind::String { length: CountRange { min: 0, max: None }, pattern: None, format: None, enumeration: None });
    let number = node(SchemaNodeKind::Number {
        bounds: NumberBounds { lower: NumberBound::Unbounded, upper: NumberBound::Unbounded },
        multiple_of: None,
        enumeration: None,
    });
    let gap = explain_schema_kind_gap(&string, &number).unwrap();
    assert_eq!(gap.render("new", "old"), "new schema #: new values may be strings, but the previous schema only accepted numbers");
    assert!(explain_schema_kind_gap(&node(SchemaNodeKind::Any), &node(SchemaNodeKind::BoolSchema(true))).is_none());
    assert_eq!(schema_kind_name(&SchemaNodeKind::BoolSchema(false)), "no value");
    assert_eq!(schema_kind_name(&SchemaNodeKind::AllOf(vec![])), "allOf-constrained values");
}

#[test]
fn enumeration_inclusion() {
    let one = vec![num(1)];
    let many = vec![num(2), num(1), num(3)];
    assert!(check_enum_inclusion(Some(one.as_slice()), None));
    assert!(!check_enum_inclusion(None, Some(one.as_slice())));
    assert!(check_enum_inclusion(None, None));
    assert!(check_enum_inclusion(Some(one.as_slice()), Some(many.as_slice())));
    assert!(!check_enum_inclusion(Some(many.as_slice()), Some(one.as_slice())));
    let left = vec![JsonValue::Object(vec![("a".to_string(), num(1)), ("b".to_string(), num(2))])];
    let right = vec![JsonValue::Object(vec![("b".to_string(), num(2)), ("a".to_string(), num(1))])];
    assert!(check_enum_inclusion(Some(left.as_slice()), Some(right.as_slice())));
    assert!(explain_enumeration_gap(Some(one.as_slice()), Some(many.as_slice())).is_none());
    let gap = explain_enumeration_gap(Some(many.as_slice()), Some(one.as_slice())).unwrap();
    assert_eq!(gap.render("new", "old"), "new schema #: enumerated values are not contained by the comparison target");
}

#[test]
fn integer_multiple_of_subsumption() {
    assert!(integer_multiple_of_constraints_subsumed(Some(&multiple(6)), Some(&multiple(3))));
    assert!(!integer_multiple_of_constraints_subsumed(Some(&multiple(3)), Some(&multiple(6))));
    assert!(!integer_multiple_of_constraints_subsumed(None, Some(&multiple(3))));
    assert!(integer_multiple_of_constraints_subsumed(None, None));
    assert!(integer_multiple_of_constraints_subsumed(Some(&multiple(5)), None));
    let half = IntegerMultipleOf { value: 0.5f64.to_bits(), divisor: None };
    assert!(!integer_multiple_of_constraints_subsumed(Some(&half), Some(&multiple(1))));
}

#[test]
fn integer_gap_names_the_first_failing_constraint() {
    let b = |lower, upper| IntegerBounds { lower, upper };
    let m = |d: i128| IntegerMultipleOf { value: (d as f64).to_bits(), divisor: Some(d) };
    assert_eq!(integer_constraint_gap(b(None, Some(5)), None, None, b(Some(0), None), None, None), Some(ConstraintGap::Bounds));
    assert_eq!(integer_constraint_gap(b(Some(1), Some(5)), Some(&m(3)), None, b(Some(0), None), Some(&m(2)), None),
        Some(ConstraintGap::MultipleOf));
    assert_eq!(integer_constraint_gap(b(Some(1), Some(5)), Some(&m(4)), None, b(Some(0), None), Some(&m(2)), None), None);
}
