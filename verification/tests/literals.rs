use jsoncompat::json::JsonValue;
use jsoncompat::literals::{
    pattern_definitely_matches_property_name, pattern_may_match_property_name, string_literal_definitely_rejected,
};
use jsoncompat::schema::{CountRange, PatternConstraint, PatternSupport, SchemaNode, SchemaNodeKind};

fn node(kind: SchemaNodeKind) -> SchemaNode {
    SchemaNode::new(kind)
}

fn regex_matcher(pattern: &str, text: &str) -> Option<bool> {
    regex::Regex::new(pattern).ok().map(|re| re.is_match(text))
}

fn string_schema(min: u64, max: Option<u64>, pattern: Option<(&str, PatternSupport)>, enumeration: Option<Vec<&str>>) -> SchemaNode {
    node(SchemaNodeKind::String {
        length: CountRange { min, max },
        pattern: pattern.map(|(p, support)| PatternConstraint { source: p.to_string(), support }),
        format: None,
        enumeration: enumeration.map(|values| values.iter().map(|v| JsonValue::String(v.to_string())).collect()),
    })
}

fn text(value: &str) -> JsonValue {
    JsonValue::String(value.to_string())
}

#[test]
fn false_rejects_and_true_does_not() {
    assert!(string_literal_definitely_rejected(&node(SchemaNodeKind::BoolSchema(false)), "a", &regex_matcher));
    assert!(!string_literal_definitely_rejected(&node(SchemaNodeKind::BoolSchema(true)), "a", &regex_matcher));
    assert!(!string_literal_definitely_rejected(&node(SchemaNodeKind::Any), "a", &regex_matcher));
}

#[test]
fn const_and_enum_reject_unlisted_strings() {
    let constant = node(SchemaNodeKind::Const(text("id")));
    assert!(!string_literal_definitely_rejected(&constant, "id", &regex_matcher));
    assert!(string_literal_definitely_rejected(&constant, "name", &regex_matcher));
    let number = node(SchemaNodeKind::Const(JsonValue::Null));
    assert!(string_literal_definitely_rejected(&number, "id", &regex_matcher));
    let listed = node(SchemaNodeKind::Enum(vec![text("a"), text("b"), JsonValue::Null]));
    assert!(!string_literal_definitely_rejected(&listed, "b", &regex_matcher));
    assert!(string_literal_definitely_rejected(&listed, "c", &regex_matcher));
}

#[test]
fn string_lengths_bound_the_literal() {
    let schema = string_schema(2, Some(3), None, None);
    assert!(string_literal_definitely_rejected(&schema, "a", &regex_matcher));
    assert!(!string_literal_definitely_rejected(&schema, "ab", &regex_matcher));
    assert!(!string_literal_definitely_rejected(&schema, "abc", &regex_matcher));
    assert!(string_literal_definitely_rejected(&schema, "abcd", &regex_matcher));
    // Lengths count characters, not bytes.
    assert!(!string_literal_definitely_rejected(&schema, "éé", &regex_matcher));
}

#[test]
fn supported_patterns_are_matched_and_unsupported_ones_are_unknown() {
    let supported = string_schema(0, None, Some(("^a+$", PatternSupport::Supported)), None);
    assert!(string_literal_definitely_rejected(&supported, "bbb", &regex_matcher));
    assert!(!string_literal_definitely_rejected(&supported, "aaa", &regex_matcher));
    let unsupported = string_schema(0, None, Some(("^a+$", PatternSupport::Unsupported)), None);
    assert!(!string_literal_definitely_rejected(&unsupported, "bbb", &regex_matcher));
}

#[test]
fn string_enumeration_rejects_unlisted_names() {
    let schema = string_schema(0, None, None, Some(vec!["x", "y"]));
    assert!(!string_literal_definitely_rejected(&schema, "x", &regex_matcher));
    assert!(string_literal_definitely_rejected(&schema, "z", &regex_matcher));
}

#[test]
fn applicators_combine_rejections() {
    let all = node(SchemaNodeKind::AllOf(vec![
        string_schema(0, None, None, None),
        node(SchemaNodeKind::Const(text("fixed"))),
    ]));
    assert!(string_literal_definitely_rejected(&all, "other", &regex_matcher));
    assert!(!string_literal_definitely_rejected(&all, "fixed", &regex_matcher));
    let any = node(SchemaNodeKind::AnyOf(vec![
        node(SchemaNodeKind::Const(text("a"))),
        node(SchemaNodeKind::Const(text("b"))),
    ]));
    assert!(string_literal_definitely_rejected(&any, "c", &regex_matcher));
    assert!(!string_literal_definitely_rejected(&any, "a", &regex_matcher));
    let one = node(SchemaNodeKind::OneOf(vec![node(SchemaNodeKind::Const(text("a")))]));
    assert!(string_literal_definitely_rejected(&one, "b", &regex_matcher));
    let empty_union = node(SchemaNodeKind::AnyOf(vec![]));
    assert!(!string_literal_definitely_rejected(&empty_union, "a", &regex_matcher));
}

#[test]
fn pattern_tests_follow_the_matcher_and_support() {
    let supported = PatternConstraint { source: "^x-".to_string(), support: PatternSupport::Supported };
    let unsupported = PatternConstraint { source: "(?<=x)-".to_string(), support: PatternSupport::Unsupported };
    assert!(pattern_definitely_matches_property_name(&supported, "x-a", &regex_matcher));
    assert!(!pattern_definitely_matches_property_name(&supported, "a", &regex_matcher));
    assert!(!pattern_definitely_matches_property_name(&unsupported, "x-a", &regex_matcher));
    assert!(pattern_may_match_property_name(&supported, "x-a", &regex_matcher));
    assert!(!pattern_may_match_property_name(&supported, "a", &regex_matcher));
    assert!(pattern_may_match_property_name(&unsupported, "a", &regex_matcher));
}
