use jsoncompat::json::{JsonNumber, JsonValue};
use jsoncompat::explainers::explain_string_constraints;
use jsoncompat::scalar::{
    integer_constraints_subsumed, number_constraints_subsumed, required_constraint_is_preserved, string_constraints_subsumed,
    singleton_integer_number_value, StringConstraints,
};
use jsoncompat::floats::finite_bound_to_i64;
use jsoncompat::schema::{
    CountRange, IntegerBounds, IntegerMultipleOf, NumberBound, NumberBounds, NumberMultipleOf, PatternConstraint, PatternSupport,
};

fn pattern(source: &str) -> PatternConstraint {
    PatternConstraint { source: source.to_string(), support: PatternSupport::Supported }
}

fn text(t: &str) -> JsonValue {
    JsonValue::String(t.to_string())
}

fn multiple(d: i128) -> IntegerMultipleOf {
    IntegerMultipleOf { value: (d as f64).to_bits(), divisor: Some(d) }
}

#[test]
fn count_range_containment() {
    let outer = CountRange { min: 1u64, max: Some(10) };
    assert!(outer.contains_range(CountRange { min: 2, max: Some(10) }));
    assert!(!outer.contains_range(CountRange { min: 0, max: Some(3) }));
    assert!(!outer.contains_range(CountRange { min: 2, max: None }));
    assert!(CountRange { min: 0u64, max: None }.contains_range(CountRange { min: 0, max: None }));
}

#[test]
fn integer_bounds_containment() {
    let outer = IntegerBounds { lower: Some(-5), upper: None };
    assert!(outer.contains_bounds(IntegerBounds { lower: Some(-5), upper: Some(7) }));
    assert!(!outer.contains_bounds(IntegerBounds { lower: None, upper: Some(7) }));
    assert!(IntegerBounds { lower: None, upper: None }.contains_bounds(IntegerBounds { lower: None, upper: None }));
}

#[test]
fn pattern_requirements() {
    let p = pattern("^a");
    let q = pattern("^b");
    assert!(required_constraint_is_preserved(None, None));
    assert!(required_constraint_is_preserved(Some(&p), None));
    assert!(!required_constraint_is_preserved(None, Some(&p)));
    assert!(required_constraint_is_preserved(Some(&p), Some(&pattern("^a"))));
    assert!(!required_constraint_is_preserved(Some(&p), Some(&q)));
}

#[test]
fn string_constraint_subsumption() {
    let p = pattern("^a");
    let values = vec![text("ab"), text("ac")];
    let wider = vec![text("ac"), text("ab"), text("zz")];
    let sub = StringConstraints { length: CountRange { min: 2, max: Some(2) }, pattern: Some(&p), enumeration: Some(values.as_slice()) };
    let sup = StringConstraints { length: CountRange { min: 1, max: None }, pattern: None, enumeration: Some(wider.as_slice()) };
    assert!(string_constraints_subsumed(sub, sup));
    assert!(!string_constraints_subsumed(sup, sub));
    let needs_pattern = StringConstraints { length: CountRange { min: 0, max: None }, pattern: Some(&p), enumeration: None };
    let free = StringConstraints { length: CountRange { min: 0, max: None }, pattern: None, enumeration: None };
    assert!(!string_constraints_subsumed(free, needs_pattern));
    assert!(string_constraints_subsumed(needs_pattern, free));
}

#[test]
fn integer_constraint_subsumption() {
    let sub_enum = vec![JsonValue::Number(JsonNumber::PosInt(12))];
    assert!(integer_constraints_subsumed(
        IntegerBounds { lower: Some(0), upper: Some(100) }, Some(&multiple(6)), Some(sub_enum.as_slice()),
        IntegerBounds { lower: Some(-1), upper: None }, Some(&multiple(3)), None,
    ));
    assert!(!integer_constraints_subsumed(
        IntegerBounds { lower: None, upper: Some(100) }, Some(&multiple(6)), None,
        IntegerBounds { lower: Some(-1), upper: None }, Some(&multiple(3)), None,
    ));
    assert!(!integer_constraints_subsumed(
        IntegerBounds { lower: Some(0), upper: Some(100) }, Some(&multiple(4)), None,
        IntegerBounds { lower: Some(-1), upper: None }, Some(&multiple(3)), None,
    ));
    assert!(!integer_constraints_subsumed(
        IntegerBounds { lower: Some(0), upper: Some(1) }, None, None,
        IntegerBounds { lower: None, upper: None }, None, Some(sub_enum.as_slice()),
    ));
}

#[test]
fn number_constraint_subsumption() {
    use_number_constraints();
}

fn number_bounds(lower: f64, upper: f64) -> NumberBounds {
    NumberBounds { lower: NumberBound::Inclusive(lower.to_bits()), upper: NumberBound::Exclusive(upper.to_bits()) }
}

fn number_multiple(v: f64) -> NumberMultipleOf {
    NumberMultipleOf { value: v.to_bits(), divisor: if v > 0.0 && v.fract() == 0.0 { Some(v as i128) } else { None } }
}

fn use_number_constraints() {
    let four = number_multiple(4.0);
    let two = number_multiple(2.0);
    assert!(number_constraints_subsumed(number_bounds(1.0, 2.0), Some(&four), None, number_bounds(0.0, 3.0), Some(&two), None));
    assert!(!number_constraints_subsumed(number_bounds(1.0, 4.0), Some(&four), None, number_bounds(0.0, 3.0), Some(&two), None));
    assert!(!number_constraints_subsumed(number_bounds(1.0, 2.0), Some(&two), None, number_bounds(0.0, 3.0), Some(&four), None));
    let values = [JsonValue::Number(JsonNumber::PosInt(1))];
    assert!(!number_constraints_subsumed(number_bounds(1.0, 2.0), None, None, number_bounds(0.0, 3.0), None, Some(&values)));
    assert!(number_constraints_subsumed(number_bounds(1.0, 2.0), None, Some(&values), number_bounds(0.0, 3.0), None, Some(&values)));
}

#[test]
fn string_constraint_explanations() {
    let loose = StringConstraints { length: CountRange { min: 0, max: None }, pattern: None, enumeration: None };
    let short = StringConstraints { length: CountRange { min: 1, max: Some(3) }, pattern: None, enumeration: None };
    assert!(explain_string_constraints(short, loose).is_none());
    let gap = explain_string_constraints(loose, short).unwrap();
    assert_eq!(gap.render("new", "old"), "new schema #: string length range 0.. is not contained by required range 1..=3");
    let p = pattern("^a");
    let patterned = StringConstraints { length: CountRange { min: 0, max: None }, pattern: Some(&p), enumeration: None };
    let missing = explain_string_constraints(loose, patterned).unwrap();
    assert_eq!(missing.render("new", "old"), "new schema #: string pattern does not preserve the comparison target's required pattern");
    let values = [text("a")];
    let enumerated = StringConstraints { length: CountRange { min: 0, max: None }, pattern: None, enumeration: Some(&values) };
    let enum_gap = explain_string_constraints(loose, enumerated).unwrap();
    assert_eq!(enum_gap.render("new", "old"), "new schema #: enumerated values are not contained by the comparison target");
}

#[test]
fn doubles_convert_to_integers_when_exact() {
    assert_eq!(finite_bound_to_i64(3.0f64.to_bits()), Some(3));
    assert_eq!(finite_bound_to_i64((-7.0f64).to_bits()), Some(-7));
    assert_eq!(finite_bound_to_i64(0.0f64.to_bits()), Some(0));
    assert_eq!(finite_bound_to_i64((-0.0f64).to_bits()), Some(0));
    assert_eq!(finite_bound_to_i64(2.5f64.to_bits()), None);
    assert_eq!(finite_bound_to_i64(9_007_199_254_740_992.0f64.to_bits()), Some(9_007_199_254_740_992));
    assert_eq!(finite_bound_to_i64((-9_007_199_254_740_992.0f64).to_bits()), Some(-9_007_199_254_740_992));
    assert_eq!(finite_bound_to_i64(18_014_398_509_481_984.0f64.to_bits()), None);
    assert_eq!(finite_bound_to_i64(f64::INFINITY.to_bits()), None);
    assert_eq!(finite_bound_to_i64(f64::NAN.to_bits()), None);
    assert_eq!(finite_bound_to_i64(f64::MIN_POSITIVE.to_bits()), None);
    assert_eq!(finite_bound_to_i64(1e300f64.to_bits()), None);
}

#[test]
fn singleton_number_bounds() {
    let b = |lower: NumberBound, upper: NumberBound| NumberBounds { lower, upper };
    let incl = |v: f64| NumberBound::Inclusive(v.to_bits());
    assert_eq!(singleton_integer_number_value(b(incl(4.0), incl(4.0))), Some(4));
    assert_eq!(singleton_integer_number_value(b(incl(-0.0), incl(0.0))), Some(0));
    assert_eq!(singleton_integer_number_value(b(incl(4.0), incl(5.0))), None);
    assert_eq!(singleton_integer_number_value(b(incl(4.5), incl(4.5))), None);
    assert_eq!(singleton_integer_number_value(b(incl(4.0), NumberBound::Exclusive(4.0f64.to_bits()))), None);
    assert_eq!(singleton_integer_number_value(b(incl(f64::NAN), incl(f64::NAN))), None);
}
