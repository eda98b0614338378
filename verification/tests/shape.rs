use jsoncompat::schema::{CountRange, IntegerBounds, IntegerMultipleOf, SchemaNode, SchemaNodeKind};
use jsoncompat::shape::{
    allof_has_direct_integer_conjunct, array_schema_is_plain_count, constant_guard_conditional_branch,
    integer_schema_is_plain_range, object_schema_is_plain_count, schema_contains_explicit_not, unwrap_singleton_applicators,
    LiveConditionalBranch,
};

fn node(kind: SchemaNodeKind) -> SchemaNode {
    SchemaNode::new(kind)
}

fn integer(divisor: Option<i128>) -> SchemaNode {
    node(SchemaNodeKind::Integer {
        bounds: IntegerBounds { lower: None, upper: None },
        multiple_of: divisor.map(|d| IntegerMultipleOf { value: (d as f64).to_bits(), divisor: Some(d) }),
        enumeration: None,
    })
}

#[test]
fn singleton_wrappers_are_unwrapped() {
    let wrapped = node(SchemaNodeKind::AllOf(vec![node(SchemaNodeKind::OneOf(vec![node(SchemaNodeKind::Null { enumeration: None })]))]));
    assert!(matches!(unwrap_singleton_applicators(&wrapped).kind(), SchemaNodeKind::Null { .. }));
    let pair = node(SchemaNodeKind::AnyOf(vec![node(SchemaNodeKind::Any), node(SchemaNodeKind::Any)]));
    assert!(matches!(unwrap_singleton_applicators(&pair).kind(), SchemaNodeKind::AnyOf(_)));
}

#[test]
fn plain_shapes() {
    let array = node(SchemaNodeKind::Array {
        prefix_items: vec![],
        items: Box::new(node(SchemaNodeKind::BoolSchema(true))),
        item_count: CountRange { min: 1, max: Some(3) },
        contains: None,
        unique_items: false,
        enumeration: None,
    });
    assert!(array_schema_is_plain_count(&array));
    let unique = node(SchemaNodeKind::Array {
        prefix_items: vec![],
        items: Box::new(node(SchemaNodeKind::Any)),
        item_count: CountRange { min: 0, max: None },
        contains: None,
        unique_items: true,
        enumeration: None,
    });
    assert!(!array_schema_is_plain_count(&unique));
    let object = node(SchemaNodeKind::Object {
        properties: vec![],
        pattern_properties: vec![],
        required: vec!["a".to_string()],
        additional: Box::new(node(SchemaNodeKind::Any)),
        property_names: Box::new(node(SchemaNodeKind::Any)),
        property_count: CountRange { min: 0, max: None },
        dependent_required: vec![],
        enumeration: None,
    });
    assert!(!object_schema_is_plain_count(&object));
    assert!(integer_schema_is_plain_range(&integer(None)));
    assert!(integer_schema_is_plain_range(&integer(Some(1))));
    assert!(!integer_schema_is_plain_range(&integer(Some(2))));
    assert!(allof_has_direct_integer_conjunct(&node(SchemaNodeKind::AllOf(vec![node(SchemaNodeKind::Any), integer(None)]))));
    assert!(!allof_has_direct_integer_conjunct(&integer(None)));
}

#[test]
fn explicit_negations_are_found() {
    let not_any = node(SchemaNodeKind::Not(Box::new(node(SchemaNodeKind::Any))));
    assert!(schema_contains_explicit_not(&not_any));
    assert!(!schema_contains_explicit_not(&node(SchemaNodeKind::Any)));
    let nested = node(SchemaNodeKind::AnyOf(vec![node(SchemaNodeKind::Any), node(SchemaNodeKind::AllOf(vec![not_any]))]));
    assert!(schema_contains_explicit_not(&nested));
    let conditional = node(SchemaNodeKind::IfThenElse {
        if_schema: Box::new(node(SchemaNodeKind::Any)),
        then_schema: None,
        else_schema: Some(Box::new(node(SchemaNodeKind::Not(Box::new(node(SchemaNodeKind::Any)))))),
    });
    assert!(schema_contains_explicit_not(&conditional));
    let plain = node(SchemaNodeKind::OneOf(vec![node(SchemaNodeKind::BoolSchema(true)), integer(None)]));
    assert!(!schema_contains_explicit_not(&plain));
}

#[test]
fn constant_guards_pick_a_branch() {
    let then_branch = integer(None);
    let else_branch = node(SchemaNodeKind::BoolSchema(false));
    match constant_guard_conditional_branch(&node(SchemaNodeKind::Any), Some(&then_branch), Some(&else_branch)) {
        Some(LiveConditionalBranch::Schema(s)) => assert!(std::ptr::eq(s, &then_branch)),
        _ => panic!("the then branch is live"),
    }
    match constant_guard_conditional_branch(&node(SchemaNodeKind::BoolSchema(false)), Some(&then_branch), None) {
        Some(LiveConditionalBranch::Universal) => {},
        _ => panic!("the absent else branch is live"),
    }
    assert!(constant_guard_conditional_branch(&integer(None), Some(&then_branch), None).is_none());
}
