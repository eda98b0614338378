use jsoncompat::intervals::{
    complement_u64_count_halfline, complement_usize_count_halfline, length_interval_contains,
    length_interval_strictly_before, u64_intervals_cover_nonnegative,
    usize_intervals_cover_nonnegative, LengthInterval,
};
use jsoncompat::json::{JsonNumber, JsonValue};
use jsoncompat::lengths::{
    split_allof_string_length_is_impossible, split_allof_string_length_subset_of_string,
    string_length_interval_bound, string_length_intervals_are_disjoint,
};
use jsoncompat::schema::{CountRange, NumberBound, NumberBounds, SchemaNode, SchemaNodeKind};

fn node(kind: SchemaNodeKind) -> SchemaNode {
    SchemaNode::new(kind)
}

fn string_len(min: u64, max: Option<u64>) -> SchemaNode {
    node(SchemaNodeKind::String {
        length: CountRange { min, max },
        pattern: None,
        format: None,
        enumeration: None,
    })
}

fn number() -> SchemaNode {
    node(SchemaNodeKind::Number {
        bounds: NumberBounds { lower: NumberBound::Unbounded, upper: NumberBound::Unbounded },
        multiple_of: None,
        enumeration: None,
    })
}

fn null() -> SchemaNode {
    node(SchemaNodeKind::Null { enumeration: None })
}

fn text(t: &str) -> JsonValue {
    JsonValue::String(t.to_string())
}

fn iv(lower: u64, upper: Option<u64>) -> LengthInterval {
    LengthInterval { lower, upper, empty: false }
}

fn empty() -> LengthInterval {
    LengthInterval { lower: 1, upper: Some(0), empty: true }
}

#[test]
fn interval_intersection_and_hull() {
    assert_eq!(iv(2, Some(5)).intersect(iv(4, Some(9))), iv(4, Some(5)));
    let crossed = iv(2, Some(3)).intersect(iv(5, None));
    assert!(crossed.empty);
    assert_eq!(iv(2, Some(3)).hull(iv(5, None)), iv(2, None));
    assert_eq!(LengthInterval::empty().hull(iv(7, Some(8))), iv(7, Some(8)));
    assert_eq!(LengthInterval::unbounded(), iv(0, None));
    assert_eq!(LengthInterval::empty(), empty());
}

#[test]
fn interval_containment_and_order() {
    assert!(length_interval_contains(iv(0, Some(10)), iv(2, Some(3))));
    assert!(!length_interval_contains(iv(0, Some(10)), iv(2, None)));
    assert!(!length_interval_contains(iv(3, None), iv(2, Some(4))));
    assert!(length_interval_contains(iv(3, Some(3)), empty()));
    assert!(!length_interval_contains(empty(), iv(0, Some(0))));
    assert!(length_interval_strictly_before(iv(0, Some(3)), iv(4, Some(6))));
    assert!(!length_interval_strictly_before(iv(0, Some(4)), iv(4, Some(6))));
    assert!(!length_interval_strictly_before(iv(0, None), iv(4, Some(6))));
    assert!(length_interval_strictly_before(empty(), iv(0, None)));
}

#[test]
fn count_halfline_complements() {
    assert_eq!(complement_u64_count_halfline(CountRange { min: 3, max: None }), Some(CountRange { min: 0, max: Some(2) }));
    assert_eq!(complement_u64_count_halfline(CountRange { min: 0, max: Some(4) }), Some(CountRange { min: 5, max: None }));
    assert_eq!(complement_u64_count_halfline(CountRange { min: 0, max: None }), None);
    assert_eq!(complement_u64_count_halfline(CountRange { min: 2, max: Some(4) }), None);
    assert_eq!(complement_u64_count_halfline(CountRange { min: 0, max: Some(u64::MAX) }), None);
    assert_eq!(complement_usize_count_halfline(CountRange { min: 1, max: None }), Some(CountRange { min: 0, max: Some(0) }));
    assert_eq!(complement_usize_count_halfline(CountRange { min: 0, max: Some(0) }), Some(CountRange { min: 1, max: None }));
}

#[test]
fn interval_lists_cover_all_counts() {
    assert!(u64_intervals_cover_nonnegative(&[(0, Some(3)), (4, None)]));
    assert!(u64_intervals_cover_nonnegative(&[(5, None), (0, Some(2)), (3, Some(6))]));
    assert!(!u64_intervals_cover_nonnegative(&[(0, Some(3)), (5, None)]));
    assert!(!u64_intervals_cover_nonnegative(&[(1, None)]));
    assert!(!u64_intervals_cover_nonnegative(&[]));
    assert!(!u64_intervals_cover_nonnegative(&[(0, Some(u64::MAX))]));
    assert!(u64_intervals_cover_nonnegative(&[(0, Some(u64::MAX)), (u64::MAX, None)]));
    assert!(usize_intervals_cover_nonnegative(&[(1, None), (0, Some(0))]));
    assert!(!usize_intervals_cover_nonnegative(&[(2, None), (0, Some(0))]));
}

#[test]
fn string_schema_bounds() {
    assert_eq!(string_length_interval_bound(&string_len(2, Some(5))), Some(iv(2, Some(5))));
    let crossed = string_length_interval_bound(&string_len(5, Some(2))).unwrap();
    assert!(crossed.empty);
    assert_eq!(string_length_interval_bound(&node(SchemaNodeKind::BoolSchema(false))), Some(empty()));
    assert_eq!(string_length_interval_bound(&node(SchemaNodeKind::BoolSchema(true))), None);
    assert_eq!(string_length_interval_bound(&node(SchemaNodeKind::Any)), None);
    assert_eq!(string_length_interval_bound(&number()), None);
}

#[test]
fn literal_bounds_count_characters() {
    assert_eq!(string_length_interval_bound(&node(SchemaNodeKind::Const(text("héllo")))), Some(iv(5, Some(5))));
    assert_eq!(
        string_length_interval_bound(&node(SchemaNodeKind::Const(JsonValue::Number(JsonNumber::PosInt(3))))),
        Some(empty())
    );
    let values = vec![text("ab"), JsonValue::Number(JsonNumber::PosInt(3)), text("abcd")];
    assert_eq!(string_length_interval_bound(&node(SchemaNodeKind::Enum(values))), Some(iv(2, Some(4))));
    let no_strings = vec![JsonValue::Null, JsonValue::Bool(true)];
    assert_eq!(string_length_interval_bound(&node(SchemaNodeKind::Enum(no_strings))), Some(empty()));
}

#[test]
fn applicator_bounds() {
    let all = node(SchemaNodeKind::AllOf(vec![string_len(2, None), string_len(0, Some(3)), node(SchemaNodeKind::Any)]));
    assert_eq!(string_length_interval_bound(&all), Some(iv(2, Some(3))));
    assert_eq!(string_length_interval_bound(&node(SchemaNodeKind::AllOf(vec![node(SchemaNodeKind::Any)]))), None);
    let any = node(SchemaNodeKind::AnyOf(vec![string_len(1, Some(2)), string_len(5, Some(6)), null()]));
    assert_eq!(string_length_interval_bound(&any), Some(iv(1, Some(6))));
    let open = node(SchemaNodeKind::AnyOf(vec![string_len(1, Some(2)), node(SchemaNodeKind::Any)]));
    assert_eq!(string_length_interval_bound(&open), None);
    assert_eq!(string_length_interval_bound(&node(SchemaNodeKind::OneOf(vec![null()]))), Some(empty()));
}

#[test]
fn conditional_bounds() {
    let then_only = node(SchemaNodeKind::IfThenElse {
        if_schema: Box::new(node(SchemaNodeKind::Any)),
        then_schema: Some(Box::new(string_len(1, Some(3)))),
        else_schema: None,
    });
    assert_eq!(string_length_interval_bound(&then_only), Some(iv(1, Some(3))));
    let else_only = node(SchemaNodeKind::IfThenElse {
        if_schema: Box::new(number()),
        then_schema: None,
        else_schema: Some(Box::new(string_len(4, None))),
    });
    assert_eq!(string_length_interval_bound(&else_only), Some(iv(4, None)));
    let both = node(SchemaNodeKind::IfThenElse {
        if_schema: Box::new(number()),
        then_schema: Some(Box::new(string_len(1, Some(2)))),
        else_schema: Some(Box::new(string_len(6, Some(7)))),
    });
    assert_eq!(string_length_interval_bound(&both), Some(iv(1, Some(7))));
    let undecided = node(SchemaNodeKind::IfThenElse {
        if_schema: Box::new(string_len(2, None)),
        then_schema: Some(Box::new(string_len(1, Some(3)))),
        else_schema: None,
    });
    assert_eq!(string_length_interval_bound(&undecided), None);
}

#[test]
fn string_length_disjointness() {
    assert!(string_length_intervals_are_disjoint(&string_len(0, Some(3)), &string_len(4, None)));
    assert!(!string_length_intervals_are_disjoint(&string_len(0, Some(4)), &string_len(4, None)));
    assert!(!string_length_intervals_are_disjoint(&node(SchemaNodeKind::Any), &string_len(4, None)));
    assert!(string_length_intervals_are_disjoint(&string_len(3, Some(1)), &string_len(0, None)));
}

#[test]
fn split_allof_string_length_conflicts() {
    let conflict = node(SchemaNodeKind::AllOf(vec![string_len(3, None), string_len(0, Some(1))]));
    assert!(split_allof_string_length_is_impossible(&conflict));
    let touching = node(SchemaNodeKind::AllOf(vec![string_len(1, None), string_len(0, Some(1))]));
    assert!(!split_allof_string_length_is_impossible(&touching));
    let wrapped = node(SchemaNodeKind::AllOf(vec![
        node(SchemaNodeKind::AnyOf(vec![string_len(3, None)])),
        string_len(0, Some(1)),
    ]));
    assert!(split_allof_string_length_is_impossible(&wrapped));
    let mixed = node(SchemaNodeKind::AllOf(vec![node(SchemaNodeKind::Any), string_len(0, Some(1))]));
    assert!(!split_allof_string_length_is_impossible(&mixed));
    assert!(!split_allof_string_length_is_impossible(&string_len(3, Some(1))));
}

#[test]
fn split_allof_string_length_containment() {
    let sub = node(SchemaNodeKind::AllOf(vec![string_len(2, None), string_len(0, Some(4))]));
    assert!(split_allof_string_length_subset_of_string(&sub, &string_len(1, Some(10))));
    assert!(!split_allof_string_length_subset_of_string(&sub, &string_len(3, None)));
    let nothing = node(SchemaNodeKind::AllOf(vec![node(SchemaNodeKind::BoolSchema(false))]));
    assert!(split_allof_string_length_subset_of_string(&nothing, &string_len(3, Some(3))));
    let crossed = node(SchemaNodeKind::AllOf(vec![string_len(5, None), string_len(0, Some(1))]));
    assert!(split_allof_string_length_subset_of_string(&crossed, &node(SchemaNodeKind::Any)));
    assert!(!split_allof_string_length_subset_of_string(&node(SchemaNodeKind::Any), &node(SchemaNodeKind::Any)));
}
