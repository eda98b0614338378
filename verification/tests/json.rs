use jsoncompat::json::{json_values_equal, object_contains_key, str_eq, JsonNumber, JsonValue, JSON_TYPE_ARRAY, JSON_TYPE_OBJECT};
use jsoncompat::text::{push_i64_decimal, u64_to_decimal};

fn num(n: u64) -> JsonValue {
    JsonValue::Number(JsonNumber::PosInt(n))
}

fn obj(members: Vec<(&str, JsonValue)>) -> JsonValue {
    JsonValue::Object(members.into_iter().map(|(k, v)| (k.to_string(), v)).collect())
}

#[test]
fn object_equality_ignores_member_order() {
    let a = obj(vec![("a", num(1)), ("b", JsonValue::Array(vec![JsonValue::Null]))]);
    let b = obj(vec![("b", JsonValue::Array(vec![JsonValue::Null])), ("a", num(1))]);
    assert!(json_values_equal(&a, &b));
    let c = obj(vec![("a", num(1)), ("c", JsonValue::Array(vec![JsonValue::Null]))]);
    assert!(!json_values_equal(&a, &c));
    assert!(!json_values_equal(&a, &obj(vec![("a", num(1))])));
}

#[test]
fn array_equality_keeps_order() {
    let a = JsonValue::Array(vec![num(1), num(2)]);
    let b = JsonValue::Array(vec![num(2), num(1)]);
    assert!(!json_values_equal(&a, &b));
    assert!(json_values_equal(&a, &JsonValue::Array(vec![num(1), num(2)])));
}

#[test]
fn numbers_compare_by_representation() {
    assert!(json_values_equal(&JsonValue::Number(JsonNumber::NegInt(-3)), &JsonValue::Number(JsonNumber::NegInt(-3))));
    assert!(!json_values_equal(&num(1), &JsonValue::Number(JsonNumber::Float(1.5f64.to_bits()))));
    assert!(!json_values_equal(&num(1), &JsonValue::String("1".to_string())));
}

#[test]
fn value_helpers() {
    let o = obj(vec![("k", JsonValue::Null)]);
    assert_eq!(o.type_bit(), JSON_TYPE_OBJECT);
    assert_eq!(JsonValue::Array(vec![]).type_bit(), JSON_TYPE_ARRAY);
    assert!(object_contains_key(o.as_object().unwrap(), "k"));
    assert!(!object_contains_key(o.as_object().unwrap(), "K"));
    assert!(JsonValue::Null.is_null());
    assert_eq!(JsonValue::String("s".to_string()).as_str(), Some("s"));
    assert!(str_eq("é", "é"));
    assert!(!str_eq("e", "é"));
}

#[test]
fn decimal_spelling() {
    assert_eq!(u64_to_decimal(0), "0");
    assert_eq!(u64_to_decimal(1234567890), "1234567890");
    assert_eq!(u64_to_decimal(u64::MAX), "18446744073709551615");
    let mut s = "n=".to_string();
    push_i64_decimal(&mut s, i64::MIN);
    assert_eq!(s, "n=-9223372036854775808");
}
