use jsoncompat::membership::{schema_acceptance_deviation, schema_may_under_accept_values, AcceptanceDeviation};
use jsoncompat::schema::{
    ContainsConstraint, CountRange, PatternConstraint, PatternProperty, PatternSupport, SchemaNode, SchemaNodeKind,
};

fn node(kind: SchemaNodeKind) -> SchemaNode {
    SchemaNode::new(kind)
}

fn dev(under: bool, over: bool) -> AcceptanceDeviation {
    AcceptanceDeviation { may_under_accept: under, may_over_accept: over }
}

fn pattern(support: PatternSupport) -> PatternConstraint {
    PatternConstraint { source: "(?<=a)b".to_string(), support }
}

fn patterned_string(support: PatternSupport) -> SchemaNode {
    node(SchemaNodeKind::String {
        length: CountRange { min: 0, max: None },
        pattern: Some(pattern(support)),
        format: None,
        enumeration: None,
    })
}

fn object_with_pattern(support: PatternSupport) -> SchemaNode {
    node(SchemaNodeKind::Object {
        properties: vec![],
        pattern_properties: vec![PatternProperty { pattern: pattern(support), schema: node(SchemaNodeKind::Any) }],
        required: vec![],
        additional: Box::new(node(SchemaNodeKind::Any)),
        property_names: Box::new(node(SchemaNodeKind::Any)),
        property_count: CountRange { min: 0, max: None },
        dependent_required: vec![],
        enumeration: None,
    })
}

#[test]
fn deviation_algebra() {
    assert_eq!(dev(true, false).combine(dev(false, true)), dev(true, true));
    assert_eq!(dev(true, false).inverted(), dev(false, true));
    assert!(dev(false, false).is_exact());
    assert!(!dev(false, true).is_exact());
}

#[test]
fn unsupported_patterns_fail_closed() {
    assert_eq!(schema_acceptance_deviation(&patterned_string(PatternSupport::Unsupported)), dev(true, false));
    assert_eq!(schema_acceptance_deviation(&patterned_string(PatternSupport::Supported)), dev(false, false));
    assert!(schema_may_under_accept_values(&patterned_string(PatternSupport::Unsupported)));
}

#[test]
fn negation_and_choice_flip_or_spread_deviation() {
    let not = node(SchemaNodeKind::Not(Box::new(patterned_string(PatternSupport::Unsupported))));
    assert_eq!(schema_acceptance_deviation(&not), dev(false, true));
    assert!(!schema_may_under_accept_values(&not));
    let one_of = node(SchemaNodeKind::OneOf(vec![patterned_string(PatternSupport::Unsupported)]));
    assert_eq!(schema_acceptance_deviation(&one_of), dev(true, true));
    let exact_one_of = node(SchemaNodeKind::OneOf(vec![node(SchemaNodeKind::Any)]));
    assert_eq!(schema_acceptance_deviation(&exact_one_of), dev(false, false));
    let any_of = node(SchemaNodeKind::AnyOf(vec![patterned_string(PatternSupport::Unsupported), node(SchemaNodeKind::Any)]));
    assert_eq!(schema_acceptance_deviation(&any_of), dev(true, false));
}

#[test]
fn object_and_array_deviation() {
    assert_eq!(schema_acceptance_deviation(&object_with_pattern(PatternSupport::Unsupported)), dev(true, true));
    assert_eq!(schema_acceptance_deviation(&object_with_pattern(PatternSupport::Supported)), dev(false, false));
    let array = node(SchemaNodeKind::Array {
        prefix_items: vec![],
        items: Box::new(node(SchemaNodeKind::Any)),
        item_count: CountRange { min: 0, max: None },
        contains: Some(ContainsConstraint {
            schema: Box::new(patterned_string(PatternSupport::Unsupported)),
            count: CountRange { min: 1, max: Some(2) },
        }),
        unique_items: false,
        enumeration: None,
    });
    assert_eq!(schema_acceptance_deviation(&array), dev(true, true));
    let at_most = node(SchemaNodeKind::Array {
        prefix_items: vec![patterned_string(PatternSupport::Supported)],
        items: Box::new(node(SchemaNodeKind::Any)),
        item_count: CountRange { min: 0, max: None },
        contains: Some(ContainsConstraint {
            schema: Box::new(patterned_string(PatternSupport::Unsupported)),
            count: CountRange { min: 0, max: Some(2) },
        }),
        unique_items: false,
        enumeration: None,
    });
    assert_eq!(schema_acceptance_deviation(&at_most), dev(false, true));
}

#[test]
fn conditional_with_inexact_condition() {
    let cond = node(SchemaNodeKind::IfThenElse {
        if_schema: Box::new(patterned_string(PatternSupport::Unsupported)),
        then_schema: None,
        else_schema: None,
    });
    assert_eq!(schema_acceptance_deviation(&cond), dev(true, true));
    let exact = node(SchemaNodeKind::IfThenElse {
        if_schema: Box::new(node(SchemaNodeKind::Any)),
        then_schema: Some(Box::new(patterned_string(PatternSupport::Unsupported))),
        else_schema: None,
    });
    assert_eq!(schema_acceptance_deviation(&exact), dev(true, false));
}
