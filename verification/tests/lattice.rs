use jsoncompat::lattice::integer_lattices_are_disjoint;
use jsoncompat::schema::{IntegerBounds, IntegerMultipleOf, NumberBound, NumberBounds, SchemaNode, SchemaNodeKind};

fn node(kind: SchemaNodeKind) -> SchemaNode {
    SchemaNode::new(kind)
}

fn integer(lower: Option<i64>, upper: Option<i64>, divisor: Option<i128>) -> SchemaNode {
    node(SchemaNodeKind::Integer {
        bounds: IntegerBounds { lower, upper },
        multiple_of: divisor.map(|d| IntegerMultipleOf { value: (d as f64).to_bits(), divisor: Some(d) }),
        enumeration: None,
    })
}

#[test]
fn no_multiple_in_range() {
    assert!(integer_lattices_are_disjoint(&integer(Some(1), Some(1), Some(2)), &integer(None, None, None)));
    assert!(!integer_lattices_are_disjoint(&integer(Some(1), Some(2), Some(2)), &integer(None, None, None)));
}

#[test]
fn least_common_multiple_decides() {
    assert!(integer_lattices_are_disjoint(&integer(None, None, Some(4)), &integer(Some(1), Some(11), Some(6))));
    assert!(!integer_lattices_are_disjoint(&integer(None, None, Some(4)), &integer(Some(1), Some(12), Some(6))));
    assert!(!integer_lattices_are_disjoint(&integer(None, None, Some(4)), &integer(Some(-12), Some(-1), Some(6))));
    assert!(integer_lattices_are_disjoint(&integer(None, None, Some(4)), &integer(Some(-11), Some(-1), Some(6))));
}

#[test]
fn separated_ranges() {
    assert!(integer_lattices_are_disjoint(&integer(Some(0), Some(10), None), &integer(Some(11), Some(20), None)));
    assert!(!integer_lattices_are_disjoint(&integer(Some(0), Some(10), None), &integer(Some(10), Some(20), None)));
}

#[test]
fn half_infinite_ranges_hold_multiples() {
    assert!(!integer_lattices_are_disjoint(&integer(Some(5), None, Some(7)), &integer(None, None, Some(3))));
    assert!(!integer_lattices_are_disjoint(&integer(None, Some(5), Some(7)), &integer(None, None, Some(3))));
}

#[test]
fn all_of_conjuncts_are_intersected() {
    let left = node(SchemaNodeKind::AllOf(vec![integer(None, None, Some(3)), integer(Some(1), Some(2), None)]));
    assert!(integer_lattices_are_disjoint(&left, &integer(None, None, None)));
    let unrelated = node(SchemaNodeKind::AllOf(vec![node(SchemaNodeKind::Any)]));
    assert!(!integer_lattices_are_disjoint(&unrelated, &integer(Some(1), Some(1), Some(2))));
}

#[test]
fn non_integer_schemas_are_unknown() {
    let number = node(SchemaNodeKind::Number {
        bounds: NumberBounds { lower: NumberBound::Unbounded, upper: NumberBound::Unbounded },
        multiple_of: None,
        enumeration: None,
    });
    assert!(!integer_lattices_are_disjoint(&number, &integer(Some(1), Some(1), Some(2))));
    let fractional = node(SchemaNodeKind::Integer {
        bounds: IntegerBounds { lower: Some(0), upper: Some(1) },
        multiple_of: Some(IntegerMultipleOf { value: 0.5f64.to_bits(), divisor: None }),
        enumeration: None,
    });
    assert!(!integer_lattices_are_disjoint(&fractional, &integer(Some(1), Some(1), None)));
    assert!(integer_lattices_are_disjoint(&fractional, &integer(Some(2), Some(5), None)));
}

#[test]
fn huge_divisors_do_not_overflow() {
    let big = i128::MAX / 2 + 1;
    assert!(!integer_lattices_are_disjoint(&integer(None, None, Some(big)), &integer(None, None, Some(3))));
    assert!(integer_lattices_are_disjoint(&integer(Some(1), Some(i64::MAX), Some(big)), &integer(None, None, None)));
}
