use jsoncompat::candidates::finite_split_allof_integer_values;
use jsoncompat::json::{JsonNumber, JsonValue};
use jsoncompat::schema::{IntegerBounds, NumberBound, NumberBounds, SchemaNode, SchemaNodeKind};

fn integer(lower: Option<i64>, upper: Option<i64>) -> SchemaNode {
    SchemaNode::new(SchemaNodeKind::Integer { bounds: IntegerBounds { lower, upper }, multiple_of: None, enumeration: None })
}

fn number(lower: NumberBound, upper: NumberBound) -> SchemaNode {
    SchemaNode::new(SchemaNodeKind::Number { bounds: NumberBounds { lower, upper }, multiple_of: None, enumeration: None })
}

fn all_of(children: Vec<SchemaNode>) -> SchemaNode {
    SchemaNode::new(SchemaNodeKind::AllOf(children))
}

fn as_int(v: &JsonValue) -> i64 {
    match v {
        JsonValue::Number(JsonNumber::PosInt(n)) => *n as i64,
        JsonValue::Number(JsonNumber::NegInt(n)) => *n,
        _ => panic!("not an integer"),
    }
}

fn candidates(schema: &SchemaNode) -> Option<Vec<i64>> {
    finite_split_allof_integer_values(schema).map(|values| values.iter().map(as_int).collect())
}

#[test]
fn integer_range_is_enumerated() {
    assert_eq!(candidates(&all_of(vec![integer(Some(-2), Some(3))])), Some(vec![-2, -1, 0, 1, 2, 3]));
}

#[test]
fn fractional_ends_round_outward() {
    let schema = all_of(vec![
        integer(None, None),
        number(NumberBound::Inclusive(0.5f64.to_bits()), NumberBound::Exclusive(3.5f64.to_bits())),
    ]);
    assert_eq!(candidates(&schema), Some(vec![0, 1, 2, 3, 4]));
    let negative = all_of(vec![
        integer(None, None),
        number(NumberBound::Inclusive((-1.5f64).to_bits()), NumberBound::Inclusive((-0.25f64).to_bits())),
    ]);
    assert_eq!(candidates(&negative), Some(vec![-2, -1, 0]));
}

#[test]
fn empty_range_gives_no_candidates() {
    let schema = all_of(vec![integer(Some(1), Some(2)), integer(Some(5), Some(6))]);
    assert_eq!(candidates(&schema), Some(vec![]));
}

#[test]
fn no_candidate_set_without_a_small_exact_range() {
    assert_eq!(candidates(&all_of(vec![integer(Some(0), Some(1000))])), None);
    assert_eq!(candidates(&all_of(vec![integer(Some(0), Some(256))])).map(|v| v.len()), Some(257));
    assert_eq!(candidates(&all_of(vec![integer(Some(0), None)])), None);
    assert_eq!(candidates(&integer(Some(0), Some(3))), None);
    let huge = all_of(vec![
        integer(None, None),
        number(NumberBound::Inclusive(1e300f64.to_bits()), NumberBound::Inclusive(1e300f64.to_bits())),
    ]);
    assert_eq!(candidates(&huge), None);
    let beyond = all_of(vec![
        integer(None, None),
        number(NumberBound::Inclusive(9007199254740992.0f64.to_bits()), NumberBound::Inclusive(9007199254740992.0f64.to_bits())),
    ]);
    assert_eq!(candidates(&beyond), None);
    let unbounded_conjunct = all_of(vec![integer(Some(0), Some(3)), SchemaNode::new(SchemaNodeKind::Any)]);
    assert_eq!(candidates(&unbounded_conjunct), Some(vec![0, 1, 2, 3]));
}
