use jsoncompat::emptiness::{
    array_contains_requirement_is_locally_impossible, one_of_pair_single_live_branch, one_of_trivial_live_branch,
    schema_is_locally_empty_for_finite_enumeration,
};
use jsoncompat::json::{JsonNumber, JsonValue};
use jsoncompat::schema::{
    ContainsConstraint, CountRange, IntegerBounds, PatternConstraint, PatternSupport, SchemaNode, SchemaNodeKind,
};

fn node(kind: SchemaNodeKind) -> SchemaNode {
    SchemaNode::new(kind)
}

fn number(n: u64) -> JsonValue {
    JsonValue::Number(JsonNumber::PosInt(n))
}

/// A small evaluator for the schemas these tests build: integer bounds and
/// enumerations, string enumerations, and `true`/`false`.
fn evaluator(schema: &SchemaNode, value: &JsonValue) -> bool {
    match (&schema.kind, value) {
        (SchemaNodeKind::BoolSchema(b), _) => *b,
        (SchemaNodeKind::Any, _) => true,
        (SchemaNodeKind::Integer { bounds, enumeration, .. }, JsonValue::Number(JsonNumber::PosInt(n))) => {
            let n = *n as i128;
            bounds.lower.is_none_or(|l| (l as i128) <= n)
                && bounds.upper.is_none_or(|u| n <= (u as i128))
                && enumeration.as_ref().is_none_or(|values| {
                    values.iter().any(|v| matches!(v, JsonValue::Number(JsonNumber::PosInt(m)) if (*m as i128) == n))
                })
        }
        (SchemaNodeKind::String { enumeration, .. }, JsonValue::String(t)) => enumeration
            .as_ref()
            .is_none_or(|values| values.iter().any(|v| matches!(v, JsonValue::String(u) if u == t))),
        _ => false,
    }
}

fn integer(lower: Option<i64>, enumeration: Option<Vec<u64>>) -> SchemaNode {
    node(SchemaNodeKind::Integer {
        bounds: IntegerBounds { lower, upper: None },
        multiple_of: None,
        enumeration: enumeration.map(|values| values.into_iter().map(number).collect()),
    })
}

fn array_with_contains(contains: SchemaNode, min: u64, max_items: Option<u64>) -> SchemaNode {
    node(SchemaNodeKind::Array {
        prefix_items: vec![],
        items: Box::new(node(SchemaNodeKind::Any)),
        item_count: CountRange { min: 0, max: max_items },
        contains: Some(ContainsConstraint { schema: Box::new(contains), count: CountRange { min, max: None } }),
        unique_items: false,
        enumeration: None,
    })
}

#[test]
fn syntactic_emptiness_is_local() {
    assert!(schema_is_locally_empty_for_finite_enumeration(&node(SchemaNodeKind::BoolSchema(false)), &evaluator));
    assert!(schema_is_locally_empty_for_finite_enumeration(&node(SchemaNodeKind::Enum(vec![])), &evaluator));
    assert!(schema_is_locally_empty_for_finite_enumeration(&integer(None, Some(vec![])), &evaluator));
    assert!(!schema_is_locally_empty_for_finite_enumeration(&node(SchemaNodeKind::Any), &evaluator));
    assert!(!schema_is_locally_empty_for_finite_enumeration(&integer(None, None), &evaluator));
    // `not {}` may accept no JSON type at all.
    let never = node(SchemaNodeKind::Not(Box::new(node(SchemaNodeKind::Any))));
    assert!(schema_is_locally_empty_for_finite_enumeration(&never, &evaluator));
}

#[test]
fn enumerations_rejected_by_the_evaluator_are_empty() {
    // minimum 5 rules out both listed values.
    assert!(schema_is_locally_empty_for_finite_enumeration(&integer(Some(5), Some(vec![1, 2])), &evaluator));
    assert!(!schema_is_locally_empty_for_finite_enumeration(&integer(Some(1), Some(vec![1, 2])), &evaluator));
}

#[test]
fn unsupported_patterns_keep_rejections_inconclusive() {
    let schema = node(SchemaNodeKind::String {
        length: CountRange { min: 5, max: None },
        pattern: Some(PatternConstraint { source: "(?<=a)b".to_string(), support: PatternSupport::Unsupported }),
        format: None,
        enumeration: Some(vec![JsonValue::String("ab".to_string())]),
    });
    let rejecting = |_: &SchemaNode, _: &JsonValue| false;
    assert!(!schema_is_locally_empty_for_finite_enumeration(&schema, &rejecting));
}

#[test]
fn applicators_pass_emptiness_on() {
    let conjunction = node(SchemaNodeKind::AllOf(vec![node(SchemaNodeKind::Any), node(SchemaNodeKind::BoolSchema(false))]));
    assert!(schema_is_locally_empty_for_finite_enumeration(&conjunction, &evaluator));
    let single = node(SchemaNodeKind::AnyOf(vec![node(SchemaNodeKind::BoolSchema(false))]));
    assert!(schema_is_locally_empty_for_finite_enumeration(&single, &evaluator));
    // Two `false` arms leave no JSON type to accept.
    let empty_pair = node(SchemaNodeKind::OneOf(vec![
        node(SchemaNodeKind::BoolSchema(false)),
        node(SchemaNodeKind::BoolSchema(false)),
    ]));
    assert!(schema_is_locally_empty_for_finite_enumeration(&empty_pair, &evaluator));
    // Two identical live arms are empty too, but not for a local reason.
    let live_pair = node(SchemaNodeKind::OneOf(vec![node(SchemaNodeKind::Any), node(SchemaNodeKind::Any)]));
    assert!(!schema_is_locally_empty_for_finite_enumeration(&live_pair, &evaluator));
}

#[test]
fn two_arm_one_of_with_an_empty_arm_is_the_other_arm() {
    let branches = vec![node(SchemaNodeKind::BoolSchema(false)), node(SchemaNodeKind::Const(number(1)))];
    let live = one_of_pair_single_live_branch(&branches, &evaluator);
    assert!(matches!(live, Some(b) if std::ptr::eq(b, &branches[1])));
    let swapped = vec![node(SchemaNodeKind::Const(number(1))), node(SchemaNodeKind::Enum(vec![]))];
    let live = one_of_pair_single_live_branch(&swapped, &evaluator);
    assert!(matches!(live, Some(b) if std::ptr::eq(b, &swapped[0])));
    let both_live = vec![node(SchemaNodeKind::Const(number(1))), node(SchemaNodeKind::Const(number(2)))];
    assert!(one_of_pair_single_live_branch(&both_live, &evaluator).is_none());
    let both_empty = vec![node(SchemaNodeKind::BoolSchema(false)), node(SchemaNodeKind::BoolSchema(false))];
    assert!(one_of_pair_single_live_branch(&both_empty, &evaluator).is_none());
    let three = vec![node(SchemaNodeKind::BoolSchema(false)), node(SchemaNodeKind::Any), node(SchemaNodeKind::Any)];
    assert!(one_of_pair_single_live_branch(&three, &evaluator).is_none());
}

#[test]
fn one_of_with_at_most_one_live_arm_reduces() {
    assert!(matches!(one_of_trivial_live_branch(&[], &evaluator), Some(None)));
    let all_empty = vec![node(SchemaNodeKind::BoolSchema(false)), node(SchemaNodeKind::Enum(vec![]))];
    assert!(matches!(one_of_trivial_live_branch(&all_empty, &evaluator), Some(None)));
    let one_live = vec![
        node(SchemaNodeKind::BoolSchema(false)),
        node(SchemaNodeKind::Any),
        node(SchemaNodeKind::BoolSchema(false)),
    ];
    let reduced = one_of_trivial_live_branch(&one_live, &evaluator);
    assert!(matches!(reduced, Some(Some(b)) if std::ptr::eq(b, &one_live[1])));
    let two_live = vec![node(SchemaNodeKind::Any), node(SchemaNodeKind::BoolSchema(false)), node(SchemaNodeKind::Any)];
    assert!(one_of_trivial_live_branch(&two_live, &evaluator).is_none());
}

#[test]
fn contains_requirements_that_cannot_be_met() {
    assert!(array_contains_requirement_is_locally_impossible(
        &array_with_contains(node(SchemaNodeKind::Any), 3, Some(2)),
        &evaluator
    ));
    assert!(!array_contains_requirement_is_locally_impossible(
        &array_with_contains(node(SchemaNodeKind::Any), 2, Some(2)),
        &evaluator
    ));
    assert!(array_contains_requirement_is_locally_impossible(
        &array_with_contains(node(SchemaNodeKind::BoolSchema(false)), 1, None),
        &evaluator
    ));
    assert!(!array_contains_requirement_is_locally_impossible(
        &array_with_contains(node(SchemaNodeKind::BoolSchema(false)), 0, None),
        &evaluator
    ));
    assert!(!array_contains_requirement_is_locally_impossible(&integer(None, None), &evaluator));
}
