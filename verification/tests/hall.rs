use jsoncompat::hall::{distinct_values, has_hall_violation, push_distinct_owned};
use jsoncompat::json::{JsonNumber, JsonValue};

fn num(n: u64) -> JsonValue {
    JsonValue::Number(JsonNumber::PosInt(n))
}

fn nums(values: &[u64]) -> Vec<JsonValue> {
    values.iter().map(|n| num(*n)).collect()
}

fn as_u64(v: &JsonValue) -> u64 {
    match v {
        JsonValue::Number(JsonNumber::PosInt(n)) => *n,
        _ => panic!("not a small number"),
    }
}

#[test]
fn distinct_values_keep_first_occurrences() {
    let values = nums(&[1, 2, 1, 3, 2]);
    let distinct: Vec<u64> = distinct_values(&values).into_iter().map(as_u64).collect();
    assert_eq!(distinct, vec![1, 2, 3]);
    let none: Vec<JsonValue> = vec![];
    assert!(distinct_values(&none).is_empty());
}

#[test]
fn push_distinct_skips_equal_values() {
    let one = num(1);
    let other_one = num(1);
    let two = num(2);
    let mut list: Vec<&JsonValue> = vec![];
    push_distinct_owned(&mut list, &one);
    push_distinct_owned(&mut list, &other_one);
    push_distinct_owned(&mut list, &two);
    assert_eq!(list.len(), 2);
    let names = JsonValue::String("a".to_string());
    push_distinct_owned(&mut list, &names);
    assert_eq!(list.len(), 3);
}

#[test]
fn hall_violation_on_small_shared_domains() {
    assert!(has_hall_violation(&[nums(&[1, 2]), nums(&[1, 2]), nums(&[1, 2])]));
    assert!(!has_hall_violation(&[nums(&[1, 2]), nums(&[1, 2]), nums(&[3])]));
    assert!(has_hall_violation(&[nums(&[1, 1]), nums(&[1])]));
    assert!(has_hall_violation(&[nums(&[1, 2]), nums(&[1, 2]), nums(&[1, 2]), nums(&[4, 5, 6, 7])]));
    assert!(!has_hall_violation(&[nums(&[1, 2]), nums(&[2, 3]), nums(&[3, 1])]));
    assert!(has_hall_violation(&[nums(&[]), nums(&[5])]));
}

#[test]
fn hall_scan_needs_two_to_ten_positions() {
    assert!(!has_hall_violation(&[nums(&[])]));
    assert!(!has_hall_violation(&[]));
    let many: Vec<Vec<JsonValue>> = (0..11).map(|_| nums(&[1])).collect();
    assert!(!has_hall_violation(&many));
    let ten: Vec<Vec<JsonValue>> = (0..10).map(|_| nums(&[1])).collect();
    assert!(has_hall_violation(&ten));
}
