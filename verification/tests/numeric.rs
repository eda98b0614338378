use jsoncompat::explainers::number_multiple_of_constraints_subsumed;
use jsoncompat::json::{JsonNumber, JsonValue};
use jsoncompat::numeric::{
    integer_endpoint, interval_bounds_are_empty, interval_strictly_before, json_number_endpoint,
    literal_numeric_hull, looser_lower, looser_upper, lower_bound_contains, numeric_interval_bound,
    numeric_interval_contains, numeric_intervals_are_disjoint, split_allof_integer_range_subset_of_integer,
    split_allof_numeric_range_is_impossible, split_allof_numeric_range_subset_of_number, tighter_lower,
    tighter_upper, upper_bound_contains, NumericInterval, NumericIntervalBound,
};
use jsoncompat::schema::{CountRange, IntegerBounds, NumberBound, NumberBounds, NumberMultipleOf, SchemaNode, SchemaNodeKind};

fn node(kind: SchemaNodeKind) -> SchemaNode {
    SchemaNode::new(kind)
}

fn incl(v: f64) -> NumericIntervalBound {
    NumericIntervalBound { value: v.to_bits(), inclusive: true }
}

fn excl(v: f64) -> NumericIntervalBound {
    NumericIntervalBound { value: v.to_bits(), inclusive: false }
}

fn range(lower: Option<NumericIntervalBound>, upper: Option<NumericIntervalBound>) -> NumericInterval {
    NumericInterval { lower, upper, empty: false }
}

fn closed(a: f64, b: f64) -> NumericInterval {
    range(Some(incl(a)), Some(incl(b)))
}

fn number_bound(bound: Option<(f64, bool)>) -> NumberBound {
    match bound {
        None => NumberBound::Unbounded,
        Some((v, true)) => NumberBound::Inclusive(v.to_bits()),
        Some((v, false)) => NumberBound::Exclusive(v.to_bits()),
    }
}

fn number(lower: Option<(f64, bool)>, upper: Option<(f64, bool)>) -> SchemaNode {
    node(SchemaNodeKind::Number {
        bounds: NumberBounds { lower: number_bound(lower), upper: number_bound(upper) },
        multiple_of: None,
        enumeration: None,
    })
}

fn number_enum(values: Vec<JsonValue>) -> SchemaNode {
    node(SchemaNodeKind::Number {
        bounds: NumberBounds { lower: NumberBound::Unbounded, upper: NumberBound::Unbounded },
        multiple_of: None,
        enumeration: Some(values),
    })
}

fn integer(lower: Option<i64>, upper: Option<i64>) -> SchemaNode {
    node(SchemaNodeKind::Integer { bounds: IntegerBounds { lower, upper }, multiple_of: None, enumeration: None })
}

fn string() -> SchemaNode {
    node(SchemaNodeKind::String {
        length: CountRange { min: 0, max: None },
        pattern: None,
        format: None,
        enumeration: None,
    })
}

fn whole(v: i64) -> JsonValue {
    if v < 0 {
        JsonValue::Number(JsonNumber::NegInt(v))
    } else {
        JsonValue::Number(JsonNumber::PosInt(v as u64))
    }
}

fn float(v: f64) -> JsonValue {
    JsonValue::Number(JsonNumber::Float(v.to_bits()))
}

#[test]
fn tighter_ends_take_the_inner_value() {
    assert_eq!(tighter_lower(Some(incl(1.0)), Some(incl(2.0))), Some(incl(2.0)));
    assert_eq!(tighter_lower(Some(incl(2.0)), Some(excl(2.0))), Some(excl(2.0)));
    assert_eq!(tighter_lower(None, Some(incl(-1.5))), Some(incl(-1.5)));
    assert_eq!(tighter_upper(Some(incl(1.0)), Some(incl(2.0))), Some(incl(1.0)));
    assert_eq!(tighter_upper(Some(incl(3.0)), None), Some(incl(3.0)));
    assert_eq!(tighter_upper(Some(incl(f64::NAN)), Some(incl(3.0))), None);
}

#[test]
fn looser_ends_take_the_outer_value() {
    assert_eq!(looser_lower(Some(incl(1.0)), Some(incl(2.0))), Some(Some(incl(1.0))));
    assert_eq!(looser_lower(Some(excl(2.0)), Some(incl(2.0))), Some(Some(incl(2.0))));
    assert_eq!(looser_lower(None, Some(incl(2.0))), Some(None));
    assert_eq!(looser_upper(Some(incl(1.0)), Some(incl(2.0))), Some(Some(incl(2.0))));
    assert_eq!(looser_upper(Some(incl(f64::NAN)), Some(incl(2.0))), None);
}

#[test]
fn crossing_or_half_open_points_are_empty() {
    assert!(interval_bounds_are_empty(Some(incl(3.0)), Some(incl(1.0))));
    assert!(interval_bounds_are_empty(Some(incl(2.0)), Some(excl(2.0))));
    assert!(!interval_bounds_are_empty(Some(incl(2.0)), Some(incl(2.0))));
    assert!(!interval_bounds_are_empty(Some(incl(-0.0)), Some(incl(0.0))));
    assert!(!interval_bounds_are_empty(None, Some(incl(0.0))));
    assert!(!interval_bounds_are_empty(Some(incl(f64::NAN)), Some(incl(0.0))));
}

#[test]
fn intersection_and_hull_of_ranges() {
    assert_eq!(closed(0.0, 5.0).intersect(closed(3.0, 9.0)), closed(3.0, 5.0));
    assert!(closed(0.0, 1.0).intersect(closed(2.0, 3.0)).empty);
    assert!(NumericInterval::empty().intersect(NumericInterval::unbounded()).empty);
    assert_eq!(NumericInterval::unbounded().intersect(closed(1.0, 2.0)), closed(1.0, 2.0));
    assert_eq!(closed(0.0, 1.0).hull(closed(2.0, 3.0)), Some(closed(0.0, 3.0)));
    assert_eq!(NumericInterval::empty().hull(closed(2.0, 3.0)), Some(closed(2.0, 3.0)));
    assert_eq!(closed(0.0, 1.0).hull(range(Some(incl(2.0)), None)), Some(range(Some(incl(0.0)), None)));
    assert_eq!(closed(0.0, 1.0).hull(closed(f64::NAN, 3.0)), None);
    assert_eq!(NumericInterval::unbounded(), range(None, None));
    assert_eq!(NumericInterval::empty(), NumericInterval { lower: Some(excl(0.0)), upper: Some(excl(0.0)), empty: true });
}

#[test]
fn containment_and_order_of_ranges() {
    assert!(numeric_interval_contains(closed(0.0, 10.0), closed(2.0, 3.0)));
    assert!(numeric_interval_contains(closed(0.0, 10.0), range(Some(excl(0.0)), Some(excl(10.0)))));
    assert!(!numeric_interval_contains(range(Some(excl(0.0)), None), closed(0.0, 1.0)));
    assert!(!numeric_interval_contains(closed(0.0, 10.0), range(Some(incl(1.0)), None)));
    assert!(numeric_interval_contains(closed(0.0, 0.0), NumericInterval::empty()));
    assert!(!numeric_interval_contains(NumericInterval::empty(), closed(0.0, 0.0)));
    assert!(lower_bound_contains(None, Some(incl(1.0))));
    assert!(!lower_bound_contains(Some(incl(1.0)), None));
    assert!(upper_bound_contains(Some(incl(1.0)), Some(excl(1.0))));
    assert!(!upper_bound_contains(Some(excl(1.0)), Some(incl(1.0))));
    assert!(interval_strictly_before(closed(0.0, 1.0), closed(1.5, 2.0)));
    assert!(interval_strictly_before(range(None, Some(excl(1.0))), closed(1.0, 2.0)));
    assert!(!interval_strictly_before(closed(0.0, 1.0), closed(1.0, 2.0)));
    assert!(!interval_strictly_before(closed(0.0, 1.0), range(None, Some(incl(5.0)))));
}

#[test]
fn integer_endpoints_are_exact() {
    assert_eq!(integer_endpoint(3), Some(incl(3.0)));
    assert_eq!(integer_endpoint(-5), Some(incl(-5.0)));
    assert_eq!(integer_endpoint(0), Some(incl(0.0)));
    assert_eq!(integer_endpoint(9_007_199_254_740_991), Some(incl(9_007_199_254_740_991.0)));
    assert_eq!(integer_endpoint(-9_007_199_254_740_991), Some(incl(-9_007_199_254_740_991.0)));
    assert_eq!(integer_endpoint(9_007_199_254_740_992), None);
    assert_eq!(integer_endpoint(i64::MIN), None);
}

#[test]
fn json_number_endpoints() {
    assert_eq!(json_number_endpoint(&JsonNumber::PosInt(7)), Some(incl(7.0)));
    assert_eq!(json_number_endpoint(&JsonNumber::PosInt(1 << 60)), None);
    assert_eq!(json_number_endpoint(&JsonNumber::NegInt(-12)), Some(incl(-12.0)));
    assert_eq!(json_number_endpoint(&JsonNumber::Float(1.5f64.to_bits())), Some(incl(1.5)));
    assert_eq!(json_number_endpoint(&JsonNumber::Float(f64::INFINITY.to_bits())), None);
}

#[test]
fn literal_hulls() {
    let values = vec![whole(1), JsonValue::String("a".to_string()), float(5.5), whole(-2)];
    assert_eq!(literal_numeric_hull(&values), Some(closed(-2.0, 5.5)));
    assert_eq!(literal_numeric_hull(&vec![]), Some(NumericInterval::empty()));
    assert_eq!(literal_numeric_hull(&vec![JsonValue::Null]), Some(NumericInterval::empty()));
    assert_eq!(literal_numeric_hull(&vec![whole(1), JsonValue::Number(JsonNumber::PosInt(1 << 60))]), None);
}

#[test]
fn schema_number_ranges() {
    assert_eq!(numeric_interval_bound(&number(Some((1.0, true)), Some((5.0, false)))), Some(range(Some(incl(1.0)), Some(excl(5.0)))));
    assert_eq!(numeric_interval_bound(&integer(Some(2), None)), Some(range(Some(incl(2.0)), None)));
    assert_eq!(numeric_interval_bound(&integer(Some(i64::MAX), None)), None);
    assert_eq!(numeric_interval_bound(&node(SchemaNodeKind::BoolSchema(false))), Some(NumericInterval::empty()));
    assert_eq!(numeric_interval_bound(&node(SchemaNodeKind::BoolSchema(true))), None);
    assert_eq!(numeric_interval_bound(&node(SchemaNodeKind::Const(whole(3)))), Some(closed(3.0, 3.0)));
    assert_eq!(numeric_interval_bound(&node(SchemaNodeKind::Const(JsonValue::Null))), Some(NumericInterval::empty()));
    assert_eq!(numeric_interval_bound(&number_enum(vec![whole(4), whole(9)])), Some(closed(4.0, 9.0)));
    assert_eq!(numeric_interval_bound(&string()), None);
    let all = node(SchemaNodeKind::AllOf(vec![number(Some((0.0, true)), None), number(None, Some((4.0, true))), string()]));
    assert_eq!(numeric_interval_bound(&all), Some(closed(0.0, 4.0)));
    let any = node(SchemaNodeKind::AnyOf(vec![number(Some((0.0, true)), Some((1.0, true))), string(), number(Some((5.0, true)), Some((6.0, true)))]));
    assert_eq!(numeric_interval_bound(&any), Some(closed(0.0, 6.0)));
    let any_open = node(SchemaNodeKind::AnyOf(vec![number(Some((0.0, true)), Some((1.0, true))), node(SchemaNodeKind::Any)]));
    assert_eq!(numeric_interval_bound(&any_open), None);
    let ite = node(SchemaNodeKind::IfThenElse {
        if_schema: Box::new(string()),
        then_schema: Some(Box::new(closed_number(1.0, 2.0))),
        else_schema: Some(Box::new(closed_number(3.0, 4.0))),
    });
    assert_eq!(numeric_interval_bound(&ite), Some(closed(1.0, 4.0)));
}

fn closed_number(a: f64, b: f64) -> SchemaNode {
    number(Some((a, true)), Some((b, true)))
}

#[test]
fn separated_number_ranges_are_disjoint() {
    assert!(numeric_intervals_are_disjoint(&closed_number(0.0, 1.0), &closed_number(2.0, 3.0)));
    assert!(!numeric_intervals_are_disjoint(&closed_number(0.0, 2.0), &closed_number(2.0, 3.0)));
    assert!(numeric_intervals_are_disjoint(&number(None, Some((2.0, false))), &number(Some((2.0, true)), None)));
    assert!(numeric_intervals_are_disjoint(&integer(None, Some(-1)), &integer(Some(0), None)));
    assert!(numeric_intervals_are_disjoint(&node(SchemaNodeKind::BoolSchema(false)), &closed_number(0.0, 1.0)));
    assert!(!numeric_intervals_are_disjoint(&string(), &closed_number(0.0, 1.0)));
}

#[test]
fn crossing_number_bounds_make_all_of_empty() {
    let crossing = node(SchemaNodeKind::AllOf(vec![number(Some((3.0, true)), None), number(None, Some((1.0, true)))]));
    assert!(split_allof_numeric_range_is_impossible(&crossing));
    let touching = node(SchemaNodeKind::AllOf(vec![number(Some((1.0, true)), None), number(None, Some((1.0, true)))]));
    assert!(!split_allof_numeric_range_is_impossible(&touching));
    let half_open = node(SchemaNodeKind::AllOf(vec![number(Some((1.0, false)), None), integer(None, Some(1))]));
    assert!(split_allof_numeric_range_is_impossible(&half_open));
    assert!(!split_allof_numeric_range_is_impossible(&closed_number(3.0, 1.0)));
    let mixed = node(SchemaNodeKind::AllOf(vec![number(Some((3.0, true)), None), node(SchemaNodeKind::Any)]));
    assert!(!split_allof_numeric_range_is_impossible(&mixed));
}

#[test]
fn number_range_subsets() {
    let sub = node(SchemaNodeKind::AllOf(vec![number(Some((1.0, true)), None), number(None, Some((2.0, true)))]));
    assert!(split_allof_numeric_range_subset_of_number(&sub, &closed_number(0.0, 5.0)));
    assert!(!split_allof_numeric_range_subset_of_number(&sub, &closed_number(1.5, 5.0)));
    assert!(!split_allof_numeric_range_subset_of_number(&sub, &number(Some((1.0, false)), None)));
    assert!(split_allof_numeric_range_subset_of_number(&node(SchemaNodeKind::BoolSchema(false)), &closed_number(0.0, 1.0)));
    let untyped = node(SchemaNodeKind::AllOf(vec![node(SchemaNodeKind::Any)]));
    assert!(!split_allof_numeric_range_subset_of_number(&untyped, &number(None, None)));
}

#[test]
fn integer_range_subsets() {
    let sub = node(SchemaNodeKind::AllOf(vec![integer(None, None), number(Some((1.0, true)), Some((3.0, true)))]));
    assert!(split_allof_integer_range_subset_of_integer(&sub, &integer(Some(0), Some(10))));
    assert!(!split_allof_integer_range_subset_of_integer(&sub, &integer(Some(2), Some(10))));
    let no_integer = node(SchemaNodeKind::AllOf(vec![number(Some((1.0, true)), Some((3.0, true)))]));
    assert!(!split_allof_integer_range_subset_of_integer(&no_integer, &integer(Some(0), Some(10))));
}

#[test]
fn number_bounds_containment() {
    let bounds = |lower: Option<(f64, bool)>, upper: Option<(f64, bool)>| NumberBounds { lower: number_bound(lower), upper: number_bound(upper) };
    assert!(bounds(Some((0.0, true)), Some((10.0, true))).contains_bounds(bounds(Some((1.0, true)), Some((2.0, false)))));
    assert!(bounds(Some((0.0, true)), None).contains_bounds(bounds(Some((0.0, false)), None)));
    assert!(!bounds(Some((0.0, false)), None).contains_bounds(bounds(Some((0.0, true)), None)));
    assert!(!bounds(Some((0.0, true)), None).contains_bounds(bounds(None, Some((5.0, true)))));
    assert!(bounds(None, None).contains_bounds(bounds(None, None)));
    assert!(!bounds(None, Some((1.0, true))).contains_bounds(bounds(None, Some((f64::NAN, true)))));
}

#[test]
fn number_multiple_of_subsumption() {
    let m = |v: f64| NumberMultipleOf {
        value: v.to_bits(),
        divisor: if v > 0.0 && v.fract() == 0.0 { Some(v as i128) } else { None },
    };
    assert!(number_multiple_of_constraints_subsumed(Some(&m(6.0)), Some(&m(3.0))));
    assert!(!number_multiple_of_constraints_subsumed(Some(&m(4.0)), Some(&m(3.0))));
    assert!(number_multiple_of_constraints_subsumed(None, None));
    assert!(number_multiple_of_constraints_subsumed(Some(&m(0.5)), None));
    assert!(!number_multiple_of_constraints_subsumed(None, Some(&m(2.0))));
    assert!(!number_multiple_of_constraints_subsumed(Some(&m(1.0)), Some(&m(0.5))));
}
