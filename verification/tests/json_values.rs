use jdt_codegen::json::{JsonNumber, JsonObject, JsonValue};

fn num(n: i64) -> JsonValue {
    JsonValue::Number(JsonNumber::from_i64(n))
}

#[test]
fn object_insert_then_get() {
    let mut o = JsonObject::new();
    assert!(o.insert("a".to_string(), num(1)).is_none());
    assert!(o.insert("b".to_string(), num(2)).is_none());
    assert_eq!(o.len(), 2);
    assert_eq!(o.get("a"), Some(&num(1)));
    assert_eq!(o.get("b"), Some(&num(2)));
    assert!(o.get("c").is_none());
}

#[test]
fn object_equality_ignores_entry_order() {
    let mut x = JsonObject::new();
    x.insert("a".to_string(), num(1));
    x.insert("b".to_string(), num(2));
    let mut y = JsonObject::new();
    y.insert("b".to_string(), num(2));
    y.insert("a".to_string(), num(1));
    assert_eq!(JsonValue::Object(x), JsonValue::Object(y));
}

#[test]
fn object_remove_keeps_order_of_the_rest() {
    let mut o = JsonObject::new();
    o.insert("a".to_string(), num(1));
    o.insert("b".to_string(), num(2));
    o.insert("c".to_string(), num(3));
    assert_eq!(o.remove("b"), Some(num(2)));
    assert_eq!(o.len(), 2);
    assert_eq!(o.key_at(0), "a");
    assert_eq!(o.key_at(1), "c");
    assert_eq!(o.remove("b"), None);
}
