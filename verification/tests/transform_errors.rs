use jdt_codegen::{apply, JdtError, JsonNumber, JsonObject, JsonValue};

fn num(n: i64) -> JsonValue {
    JsonValue::Number(JsonNumber::from_i64(n))
}

fn text(t: &str) -> JsonValue {
    JsonValue::String(t.to_string())
}

fn obj(entries: Vec<(&str, JsonValue)>) -> JsonValue {
    let mut o = JsonObject::new();
    for (k, v) in entries {
        o.insert(k.to_string(), v);
    }
    JsonValue::Object(o)
}

fn arr(items: Vec<JsonValue>) -> JsonValue {
    JsonValue::Array(items)
}

// ── TransformNotObject ───────────────────────────────────────────────────

#[test]
fn error_transform_not_object_string() {
    let source = obj(vec![("a", num(1))]);
    let transform = text("not an object");
    let err = apply(&source, &transform).unwrap_err();
    assert!(matches!(err, JdtError::TransformNotObject));
}

#[test]
fn error_transform_not_object_array() {
    let source = obj(vec![("a", num(1))]);
    let transform = arr(vec![num(1), num(2), num(3)]);
    let err = apply(&source, &transform).unwrap_err();
    assert!(matches!(err, JdtError::TransformNotObject));
}

#[test]
fn error_transform_not_object_number() {
    let source = obj(vec![("a", num(1))]);
    let transform = num(42);
    let err = apply(&source, &transform).unwrap_err();
    assert!(matches!(err, JdtError::TransformNotObject));
}

#[test]
fn error_transform_not_object_null() {
    let source = obj(vec![("a", num(1))]);
    let transform = JsonValue::Null;
    let err = apply(&source, &transform).unwrap_err();
    assert!(matches!(err, JdtError::TransformNotObject));
}

// ── SourceNotObject ──────────────────────────────────────────────────────

#[test]
fn error_source_not_object_string() {
    let source = text("not an object");
    let transform = obj(vec![("key", text("value"))]);
    let err = apply(&source, &transform).unwrap_err();
    assert!(matches!(err, JdtError::SourceNotObject));
}

#[test]
fn error_source_not_object_array() {
    let source = arr(vec![num(1), num(2)]);
    let transform = obj(vec![("key", text("value"))]);
    let err = apply(&source, &transform).unwrap_err();
    assert!(matches!(err, JdtError::SourceNotObject));
}

#[test]
fn error_source_not_object_number() {
    let source = num(99);
    let transform = obj(vec![("key", text("value"))]);
    let err = apply(&source, &transform).unwrap_err();
    assert!(matches!(err, JdtError::SourceNotObject));
}

// ── RootOperationNotAllowed ──────────────────────────────────────────────

#[test]
fn error_remove_root_with_bool_true() {
    let source = obj(vec![("a", num(1))]);
    let transform = obj(vec![("@jdt.remove", JsonValue::Bool(true))]);
    let err = apply(&source, &transform).unwrap_err();
    assert!(matches!(err, JdtError::RootOperationNotAllowed));
}

#[test]
fn error_replace_root_with_non_object() {
    let source = obj(vec![("a", num(1))]);
    let transform = obj(vec![("@jdt.replace", num(42))]);
    let err = apply(&source, &transform).unwrap_err();
    assert!(matches!(err, JdtError::RootOperationNotAllowed));
}

#[test]
fn error_merge_root_with_non_object() {
    let source = obj(vec![("a", num(1))]);
    let transform = obj(vec![("@jdt.merge", text("scalar"))]);
    let err = apply(&source, &transform).unwrap_err();
    assert!(matches!(err, JdtError::RootOperationNotAllowed));
}

// ── MissingAttribute ────────────────────────────────────────────────────

#[test]
fn error_remove_missing_path_attribute() {
    let source = obj(vec![("a", num(1))]);
    // Object with @jdt.value but no @jdt.path
    let transform = obj(vec![(
        "@jdt.remove",
        obj(vec![("@jdt.value", text("something"))]),
    )]);
    let err = apply(&source, &transform).unwrap_err();
    assert!(matches!(err, JdtError::MissingAttribute(_)));
}

#[test]
fn error_replace_missing_value_attribute() {
    let source = obj(vec![("a", num(1))]);
    let transform = obj(vec![("@jdt.replace", obj(vec![("@jdt.path", text("$.a"))]))]);
    let err = apply(&source, &transform).unwrap_err();
    assert!(matches!(err, JdtError::MissingAttribute(_)));
}

#[test]
fn error_rename_missing_value_attribute() {
    let source = obj(vec![("a", num(1))]);
    let transform = obj(vec![("@jdt.rename", obj(vec![("@jdt.path", text("$.a"))]))]);
    let err = apply(&source, &transform).unwrap_err();
    assert!(matches!(err, JdtError::MissingAttribute(_)));
}

#[test]
fn error_merge_missing_value_attribute() {
    let source = obj(vec![("a", num(1))]);
    let transform = obj(vec![("@jdt.merge", obj(vec![("@jdt.path", text("$.a"))]))]);
    let err = apply(&source, &transform).unwrap_err();
    assert!(matches!(err, JdtError::MissingAttribute(_)));
}

// ── AttributeNotString ──────────────────────────────────────────────────

#[test]
fn error_path_attribute_not_string() {
    let source = obj(vec![("a", num(1))]);
    let transform = obj(vec![("@jdt.remove", obj(vec![("@jdt.path", num(42))]))]);
    let err = apply(&source, &transform).unwrap_err();
    assert!(matches!(err, JdtError::AttributeNotString(_)));
}

#[test]
fn error_rename_value_not_string() {
    let source = obj(vec![("a", num(1))]);
    let transform = obj(vec![(
        "@jdt.rename",
        obj(vec![("@jdt.path", text("$.a")), ("@jdt.value", num(123))]),
    )]);
    let err = apply(&source, &transform).unwrap_err();
    assert!(matches!(err, JdtError::AttributeNotString(_)));
}

#[test]
fn error_rename_direct_value_not_string() {
    let source = obj(vec![("a", num(1))]);
    let transform = obj(vec![("@jdt.rename", obj(vec![("a", num(42))]))]);
    let err = apply(&source, &transform).unwrap_err();
    assert!(matches!(err, JdtError::AttributeNotString(_)));
}

// ── RenameNotProperty ───────────────────────────────────────────────────

#[test]
fn error_rename_root_via_path() {
    let source = obj(vec![("a", num(1))]);
    let transform = obj(vec![(
        "@jdt.rename",
        obj(vec![("@jdt.path", text("$")), ("@jdt.value", text("new"))]),
    )]);
    let err = apply(&source, &transform).unwrap_err();
    assert!(matches!(err, JdtError::RenameNotProperty));
}

// ── TransformNotObject for rename with non-object value ─────────────────

#[test]
fn error_rename_non_object_value() {
    let source = obj(vec![("a", num(1))]);
    let transform = obj(vec![("@jdt.rename", text("not_an_object"))]);
    let err = apply(&source, &transform).unwrap_err();
    assert!(matches!(err, JdtError::TransformNotObject));
}

// ── remove with invalid types ───────────────────────────────────────────

#[test]
fn error_remove_with_number() {
    let source = obj(vec![("a", num(1))]);
    let transform = obj(vec![("@jdt.remove", num(42))]);
    let err = apply(&source, &transform).unwrap_err();
    assert!(matches!(err, JdtError::TransformNotObject));
}

#[test]
fn error_remove_with_null() {
    let source = obj(vec![("a", num(1))]);
    let transform = obj(vec![("@jdt.remove", JsonValue::Null)]);
    let err = apply(&source, &transform).unwrap_err();
    assert!(matches!(err, JdtError::TransformNotObject));
}

// ── JsonPath error propagation ──────────────────────────────────────────

#[test]
fn error_invalid_jsonpath_in_remove() {
    let source = obj(vec![("a", num(1))]);
    let transform = obj(vec![("@jdt.remove", obj(vec![("@jdt.path", text(""))]))]);
    let err = apply(&source, &transform).unwrap_err();
    assert!(matches!(err, JdtError::JsonPath(_)));
}

#[test]
fn error_invalid_jsonpath_in_replace() {
    let source = obj(vec![("a", num(1))]);
    let transform = obj(vec![(
        "@jdt.replace",
        obj(vec![("@jdt.path", text("")), ("@jdt.value", num(1))]),
    )]);
    let err = apply(&source, &transform).unwrap_err();
    assert!(matches!(err, JdtError::JsonPath(_)));
}

// ── Success cases (ensure basic operations still work) ───────────────────

#[test]
fn success_remove_property() {
    let source = obj(vec![("a", num(1)), ("b", num(2))]);
    let transform = obj(vec![("@jdt.remove", text("a"))]);
    let result = apply(&source, &transform).unwrap();
    assert_eq!(result, obj(vec![("b", num(2))]));
}

#[test]
fn success_remove_with_false_is_noop() {
    let source = obj(vec![("a", num(1)), ("b", num(2))]);
    let transform = obj(vec![("@jdt.remove", JsonValue::Bool(false))]);
    let result = apply(&source, &transform).unwrap();
    assert_eq!(result, obj(vec![("a", num(1)), ("b", num(2))]));
}

#[test]
fn success_replace_object() {
    let source = obj(vec![("a", num(1))]);
    let transform = obj(vec![("@jdt.replace", obj(vec![("x", num(99))]))]);
    let result = apply(&source, &transform).unwrap();
    assert_eq!(result, obj(vec![("x", num(99))]));
}

#[test]
fn success_rename_direct() {
    let source = obj(vec![("a", num(1)), ("b", num(2))]);
    let transform = obj(vec![("@jdt.rename", obj(vec![("a", text("alpha"))]))]);
    let result = apply(&source, &transform).unwrap();
    assert_eq!(result, obj(vec![("alpha", num(1)), ("b", num(2))]));
}

#[test]
fn success_default_merge() {
    let source = obj(vec![("a", num(1))]);
    let transform = obj(vec![("b", num(2))]);
    let result = apply(&source, &transform).unwrap();
    assert_eq!(result, obj(vec![("a", num(1)), ("b", num(2))]));
}

#[test]
fn success_default_merge_overwrite() {
    let source = obj(vec![("a", num(1))]);
    let transform = obj(vec![("a", num(99))]);
    let result = apply(&source, &transform).unwrap();
    assert_eq!(result, obj(vec![("a", num(99))]));
}

#[test]
fn success_default_merge_arrays_extended() {
    let source = obj(vec![("arr", arr(vec![num(1), num(2)]))]);
    let transform = obj(vec![("arr", arr(vec![num(3), num(4)]))]);
    let result = apply(&source, &transform).unwrap();
    assert_eq!(
        result,
        obj(vec![("arr", arr(vec![num(1), num(2), num(3), num(4)]))])
    );
}

#[test]
fn success_recursive_transform() {
    let source = obj(vec![("outer", obj(vec![("inner", obj(vec![("a", num(1))]))]))]);
    let transform = obj(vec![("outer", obj(vec![("inner", obj(vec![("b", num(2))]))]))]);
    let result = apply(&source, &transform).unwrap();
    assert_eq!(
        result,
        obj(vec![(
            "outer",
            obj(vec![("inner", obj(vec![("a", num(1)), ("b", num(2))]))])
        )])
    );
}

#[test]
fn success_remove_array_verb() {
    let source = obj(vec![("a", num(1)), ("b", num(2)), ("c", num(3))]);
    let transform = obj(vec![("@jdt.remove", arr(vec![text("a"), text("c")]))]);
    let result = apply(&source, &transform).unwrap();
    assert_eq!(result, obj(vec![("b", num(2))]));
}

#[test]
fn success_replace_with_selector() {
    let source = obj(vec![("a", num(1)), ("b", num(2))]);
    let transform = obj(vec![(
        "@jdt.replace",
        obj(vec![("@jdt.path", text("$.a")), ("@jdt.value", num(99))]),
    )]);
    let result = apply(&source, &transform).unwrap();
    assert_eq!(result, obj(vec![("a", num(99)), ("b", num(2))]));
}

#[test]
fn success_rename_with_selector() {
    let source = obj(vec![("a", num(1)), ("b", num(2))]);
    let transform = obj(vec![(
        "@jdt.rename",
        obj(vec![("@jdt.path", text("$.a")), ("@jdt.value", text("alpha"))]),
    )]);
    let result = apply(&source, &transform).unwrap();
    assert_eq!(result, obj(vec![("alpha", num(1)), ("b", num(2))]));
}

#[test]
fn success_merge_with_selector() {
    let source = obj(vec![("items", obj(vec![("x", num(1))]))]);
    let transform = obj(vec![(
        "@jdt.merge",
        obj(vec![
            ("@jdt.path", text("$.items")),
            ("@jdt.value", obj(vec![("y", num(2))])),
        ]),
    )]);
    let result = apply(&source, &transform).unwrap();
    assert_eq!(
        result,
        obj(vec![("items", obj(vec![("x", num(1)), ("y", num(2))]))])
    );
}

#[test]
fn success_verb_execution_order() {
    // Verbs execute in order: remove, replace, rename, merge
    // Remove "a", then default-merge "b"
    let source = obj(vec![("a", num(1))]);
    let transform = obj(vec![("@jdt.remove", text("a")), ("b", num(2))]);
    let result = apply(&source, &transform).unwrap();
    assert_eq!(result, obj(vec![("b", num(2))]));
}

#[test]
fn success_empty_transform() {
    let source = obj(vec![("a", num(1)), ("b", num(2))]);
    let transform = obj(vec![]);
    let result = apply(&source, &transform).unwrap();
    assert_eq!(result, obj(vec![("a", num(1)), ("b", num(2))]));
}
