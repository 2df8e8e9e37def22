use jdt_codegen::{apply, JdtError, JsonNumber, JsonObject, JsonPathError, JsonValue};

fn num(n: i64) -> JsonValue {
    JsonValue::Number(JsonNumber::from_i64(n))
}

fn text(t: &str) -> JsonValue {
    JsonValue::String(t.to_string())
}

fn obj(entries: Vec<(&str, JsonValue)>) -> JsonValue {
    let mut o = JsonObject::new();
    for (k, v) in entries {
        o.insert(k.to_string(), v);
    }
    JsonValue::Object(o)
}

fn arr(items: Vec<JsonValue>) -> JsonValue {
    JsonValue::Array(items)
}

fn keys(value: &JsonValue) -> Vec<String> {
    match value {
        JsonValue::Object(o) => (0..o.len()).map(|i| o.key_at(i).clone()).collect(),
        _ => panic!("not an object"),
    }
}

fn verb(name: &str, argument: JsonValue) -> JsonValue {
    obj(vec![(name, argument)])
}

fn attributed(path: &str, value: JsonValue) -> JsonValue {
    obj(vec![("@jdt.path", text(path)), ("@jdt.value", value)])
}

fn arr_doc() -> JsonValue {
    obj(vec![(
        "a",
        arr(vec![arr(vec![num(1), num(2)]), arr(vec![num(3), num(4)])]),
    )])
}

fn books() -> JsonValue {
    obj(vec![(
        "items",
        arr(vec![
            obj(vec![("t", text("book"))]),
            obj(vec![("t", text("dvd"))]),
            obj(vec![("t", text("book"))]),
        ]),
    )])
}

#[test]
fn empty_transform_gives_the_source() {
    let sources = vec![
        obj(vec![]),
        obj(vec![("a", num(1)), ("b", arr(vec![num(1), JsonValue::Null]))]),
        obj(vec![("@jdt.x", obj(vec![("y", text("z"))]))]),
    ];
    for source in sources {
        let result = apply(&source, &obj(vec![])).unwrap();
        assert_eq!(result, source);
        assert_eq!(keys(&result), keys(&source));
    }
}

#[test]
fn empty_transform_gives_any_source_back() {
    let sources = vec![
        JsonValue::Null,
        JsonValue::Bool(true),
        num(42),
        text("not an object"),
        arr(vec![num(1), obj(vec![("a", num(2))])]),
        arr(vec![]),
    ];
    for source in sources {
        assert_eq!(apply(&source, &obj(vec![])).unwrap(), source);
    }
}

#[test]
fn source_that_is_no_object_takes_syntax_alone() {
    let replaced = apply(&num(5), &verb("@jdt.replace", obj(vec![("x", num(1))]))).unwrap();
    assert_eq!(replaced, obj(vec![("x", num(1))]));
    let list = arr(vec![num(1), num(2), num(3)]);
    let removed = apply(&list, &verb("@jdt.remove", obj(vec![("@jdt.path", text("$[0,2]"))])));
    assert_eq!(removed.unwrap(), arr(vec![num(2)]));
    let merged = apply(&list, &verb("@jdt.merge", attributed("$", arr(vec![num(4)]))));
    assert_eq!(merged.unwrap(), arr(vec![num(1), num(2), num(3), num(4)]));
    let kept = apply(&list, &obj(vec![("@jdt.unknown", num(1))])).unwrap();
    assert_eq!(kept, list);
    for transform in [
        verb("@jdt.remove", text("a")),
        verb("@jdt.rename", obj(vec![("a", text("b"))])),
        verb("@jdt.merge", obj(vec![("k", num(1))])),
        obj(vec![("k", num(1))]),
        obj(vec![("@jdt.replace", obj(vec![("x", num(1))])), ("k", num(1))]),
    ] {
        assert!(matches!(
            apply(&list, &transform).unwrap_err(),
            JdtError::SourceNotObject
        ));
    }
    assert!(matches!(
        apply(&num(5), &verb("@jdt.replace", num(6))).unwrap_err(),
        JdtError::RootOperationNotAllowed
    ));
    assert!(matches!(
        apply(&num(5), &num(6)).unwrap_err(),
        JdtError::TransformNotObject
    ));
}

#[test]
fn source_is_left_as_it_was() {
    let source = books();
    let before = source.clone();
    let transform = verb(
        "@jdt.remove",
        obj(vec![("@jdt.path", text("$.items[?(@.t == \"book\")]"))]),
    );
    let result = apply(&source, &transform).unwrap();
    assert_ne!(result, source);
    assert_eq!(source, before);
    assert_eq!(keys(&source), keys(&before));
}

#[test]
fn remove_by_filter_deletes_in_descending_order() {
    let transform = verb(
        "@jdt.remove",
        obj(vec![("@jdt.path", text("$.items[?(@.t == \"book\")]"))]),
    );
    let result = apply(&books(), &transform).unwrap();
    assert_eq!(
        result,
        obj(vec![("items", arr(vec![obj(vec![("t", text("dvd"))])]))])
    );
}

#[test]
fn remove_by_union_keeps_order_of_the_rest() {
    let source = obj(vec![(
        "a",
        arr(vec![num(0), num(1), num(2), num(3), num(4), num(5)]),
    )]);
    let transform = verb("@jdt.remove", obj(vec![("@jdt.path", text("$.a[1,4,1,0]"))]));
    let result = apply(&source, &transform).unwrap();
    assert_eq!(result, obj(vec![("a", arr(vec![num(2), num(3), num(5)]))]));
}

#[test]
fn remove_repeated_paths_once() {
    let source = arr_doc();
    let transform = verb("@jdt.remove", obj(vec![("@jdt.path", text("$.a[0,1,0][0]"))]));
    let result = apply(&source, &transform).unwrap();
    assert_eq!(
        result,
        obj(vec![("a", arr(vec![arr(vec![num(2)]), arr(vec![num(4)])]))])
    );
}

#[test]
fn remove_deeper_paths_first() {
    let source = obj(vec![(
        "a",
        arr(vec![arr(vec![num(1), num(2)]), arr(vec![num(3), num(4)])]),
    )]);
    let transform = verb(
        "@jdt.remove",
        arr(vec![
            obj(vec![("@jdt.path", text("$.a[0,1][0]"))]),
            obj(vec![("@jdt.path", text("$.a[0]"))]),
        ]),
    );
    let result = apply(&source, &transform).unwrap();
    assert_eq!(result, obj(vec![("a", arr(vec![arr(vec![num(4)])]))]));
}

#[test]
fn remove_key_twice_is_remove_once() {
    let source = obj(vec![("a", num(1)), ("b", num(2))]);
    let once = apply(&source, &verb("@jdt.remove", text("a"))).unwrap();
    let twice = apply(&once, &verb("@jdt.remove", text("a"))).unwrap();
    assert_eq!(once, twice);
    assert_eq!(keys(&twice), vec!["b".to_string()]);
    let both = apply(&source, &verb("@jdt.remove", arr(vec![text("a"), text("a")]))).unwrap();
    assert_eq!(both, once);
}

#[test]
fn remove_absent_key_and_empty_match_are_silent() {
    let source = obj(vec![("a", num(1))]);
    assert_eq!(
        apply(&source, &verb("@jdt.remove", text("zz"))).unwrap(),
        source
    );
    let transform = verb("@jdt.remove", obj(vec![("@jdt.path", text("$.zz[3]"))]));
    assert_eq!(apply(&source, &transform).unwrap(), source);
}

#[test]
fn remove_root_path_is_an_error_at_the_root_only() {
    let source = obj(vec![("a", obj(vec![("b", num(1))]))]);
    let at_root = verb("@jdt.remove", obj(vec![("@jdt.path", text("$"))]));
    assert!(matches!(
        apply(&source, &at_root).unwrap_err(),
        JdtError::RootOperationNotAllowed
    ));
    let below = obj(vec![("a", at_root)]);
    assert_eq!(
        apply(&source, &below).unwrap(),
        obj(vec![("a", JsonValue::Null)])
    );
    let by_true = obj(vec![("a", verb("@jdt.remove", JsonValue::Bool(true)))]);
    assert_eq!(
        apply(&source, &by_true).unwrap(),
        obj(vec![("a", JsonValue::Null)])
    );
}

#[test]
fn halt_skips_later_verbs_and_overlay() {
    let source = obj(vec![("a", obj(vec![("b", num(1))]))]);
    let transform = obj(vec![(
        "a",
        obj(vec![
            ("extra", num(5)),
            ("@jdt.rename", obj(vec![("x", text("y"))])),
            ("@jdt.replace", obj(vec![("x", num(9))])),
        ]),
    )]);
    assert_eq!(
        apply(&source, &transform).unwrap(),
        obj(vec![("a", obj(vec![("x", num(9))]))])
    );
    let first_halts = obj(vec![(
        "a",
        verb("@jdt.remove", arr(vec![JsonValue::Bool(true), num(3)])),
    )]);
    assert_eq!(
        apply(&source, &first_halts).unwrap(),
        obj(vec![("a", JsonValue::Null)])
    );
}

#[test]
fn replace_with_itself_changes_nothing() {
    let source = obj(vec![("a", num(1)), ("b", arr(vec![num(2), num(3)]))]);
    let whole = verb("@jdt.replace", source.clone());
    let result = apply(&source, &whole).unwrap();
    assert_eq!(result, source);
    assert_eq!(keys(&result), keys(&source));
    let part = verb("@jdt.replace", attributed("$.b[1]", num(3)));
    let result = apply(&source, &part).unwrap();
    assert_eq!(result, source);
    assert_eq!(keys(&result), keys(&source));
}

#[test]
fn replace_root_by_selector() {
    let source = obj(vec![("a", num(1))]);
    let with_object = verb("@jdt.replace", attributed("$", obj(vec![("z", num(0))])));
    assert_eq!(
        apply(&source, &with_object).unwrap(),
        obj(vec![("z", num(0))])
    );
    let with_scalar = verb("@jdt.replace", attributed("$", num(0)));
    assert!(matches!(
        apply(&source, &with_scalar).unwrap_err(),
        JdtError::RootOperationNotAllowed
    ));
    let nested = obj(vec![("a", obj(vec![("b", num(1))]))]);
    let below = obj(vec![("a", verb("@jdt.replace", attributed("$", num(0))))]);
    assert_eq!(apply(&nested, &below).unwrap(), obj(vec![("a", num(0))]));
}

#[test]
fn replace_every_match() {
    let transform = verb("@jdt.replace", attributed("$.items[0,2].t", text("cd")));
    assert_eq!(
        apply(&books(), &transform).unwrap(),
        obj(vec![(
            "items",
            arr(vec![
                obj(vec![("t", text("cd"))]),
                obj(vec![("t", text("dvd"))]),
                obj(vec![("t", text("cd"))]),
            ]),
        )])
    );
}

#[test]
fn rename_to_the_same_name_changes_nothing() {
    let source = obj(vec![("a", num(1)), ("b", num(2))]);
    let transform = verb("@jdt.rename", obj(vec![("a", text("a"))]));
    assert_eq!(apply(&source, &transform).unwrap(), source);
    let single = obj(vec![("a", num(1))]);
    let result = apply(&single, &transform).unwrap();
    assert_eq!(keys(&result), vec!["a".to_string()]);
}

#[test]
fn rename_moves_the_value_to_the_new_key() {
    let source = obj(vec![("a", num(1)), ("b", num(2)), ("c", num(3))]);
    let transform = verb("@jdt.rename", obj(vec![("a", text("z")), ("q", text("r"))]));
    let result = apply(&source, &transform).unwrap();
    assert_eq!(result, obj(vec![("z", num(1)), ("b", num(2)), ("c", num(3))]));
    assert_eq!(
        keys(&result),
        vec!["b".to_string(), "c".to_string(), "z".to_string()]
    );
    let onto = verb("@jdt.rename", obj(vec![("a", text("b"))]));
    let result = apply(&source, &onto).unwrap();
    assert_eq!(result, obj(vec![("b", num(1)), ("c", num(3))]));
}

#[test]
fn rename_array_item_is_refused() {
    let transform = verb("@jdt.rename", attributed("$.items[0]", text("x")));
    assert!(matches!(
        apply(&books(), &transform).unwrap_err(),
        JdtError::RenameNotProperty
    ));
    let inner = verb("@jdt.rename", attributed("$.items[0,1].t", text("kind")));
    assert_eq!(
        apply(&books(), &inner).unwrap(),
        obj(vec![(
            "items",
            arr(vec![
                obj(vec![("kind", text("book"))]),
                obj(vec![("kind", text("dvd"))]),
                obj(vec![("t", text("book"))]),
            ]),
        )])
    );
}

#[test]
fn verbs_see_what_earlier_verbs_left() {
    let source = obj(vec![("a", arr(vec![num(1)]))]);
    let transform = obj(vec![("@jdt.merge", attributed("$.a", arr(vec![])))]);
    assert_eq!(apply(&source, &transform).unwrap(), source);
    let nested = obj(vec![("a", obj(vec![("b", num(1))]))]);
    let transform = obj(vec![(
        "a",
        obj(vec![
            ("@jdt.replace", attributed("$.b", num(2))),
            ("@jdt.rename", obj(vec![("b", text("c"))])),
        ]),
    )]);
    assert_eq!(
        apply(&nested, &transform).unwrap(),
        obj(vec![("a", obj(vec![("c", num(2))]))])
    );
}

#[test]
fn merge_joins_arrays_and_overwrites_the_rest() {
    let source = obj(vec![("a", arr(vec![num(1)])), ("b", num(2))]);
    let transform = verb(
        "@jdt.merge",
        arr(vec![
            attributed("$.a", arr(vec![num(9)])),
            attributed("$.b", text("x")),
            attributed("$.zz", text("x")),
        ]),
    );
    assert_eq!(
        apply(&source, &transform).unwrap(),
        obj(vec![("a", arr(vec![num(1), num(9)])), ("b", text("x"))])
    );
}

#[test]
fn merge_object_is_a_nested_transform() {
    let source = obj(vec![("a", num(1)), ("b", num(2))]);
    let transform = obj(vec![
        ("@jdt.merge", obj(vec![("@jdt.remove", text("a")), ("c", num(3))])),
        ("d", num(4)),
    ]);
    let result = apply(&source, &transform).unwrap();
    assert_eq!(result, obj(vec![("b", num(2)), ("c", num(3)), ("d", num(4))]));
    assert_eq!(
        keys(&result),
        vec!["b".to_string(), "c".to_string(), "d".to_string()]
    );
}

#[test]
fn merge_at_root_path() {
    let source = obj(vec![("a", num(1))]);
    let object = verb("@jdt.merge", attributed("$", obj(vec![("b", num(2))])));
    assert_eq!(
        apply(&source, &object).unwrap(),
        obj(vec![("a", num(1)), ("b", num(2))])
    );
    let scalar = verb("@jdt.merge", attributed("$", num(2)));
    assert!(matches!(
        apply(&source, &scalar).unwrap_err(),
        JdtError::RootOperationNotAllowed
    ));
}

#[test]
fn overlay_leaves_syntax_and_recursed_keys_out() {
    let source = obj(vec![("a", obj(vec![("x", num(1))])), ("b", num(2))]);
    let transform = obj(vec![
        ("a", obj(vec![("y", num(2))])),
        ("b", obj(vec![("z", num(3))])),
        ("@jdt.unknown", num(7)),
        ("@jdt.path", text("$")),
    ]);
    let result = apply(&source, &transform).unwrap();
    assert_eq!(
        result,
        obj(vec![
            ("a", obj(vec![("x", num(1)), ("y", num(2))])),
            ("b", obj(vec![("z", num(3))])),
        ])
    );
    assert_eq!(keys(&result), vec!["a".to_string(), "b".to_string()]);
}

#[test]
fn overlay_twice_is_overlay_once_without_arrays() {
    let source = obj(vec![("a", num(1)), ("n", obj(vec![("k", num(0))]))]);
    let transform = obj(vec![
        ("a", num(9)),
        ("b", text("x")),
        ("n", obj(vec![("k", num(1)), ("m", JsonValue::Null)])),
    ]);
    let once = apply(&source, &transform).unwrap();
    let twice = apply(&once, &transform).unwrap();
    assert_eq!(once, twice);
    assert_eq!(keys(&once), keys(&twice));
    let arrays = obj(vec![("a", arr(vec![num(1)]))]);
    let t = obj(vec![("a", arr(vec![num(2)]))]);
    let once = apply(&arrays, &t).unwrap();
    let twice = apply(&once, &t).unwrap();
    assert_ne!(once, twice);
}

#[test]
fn verbs_run_in_fixed_order() {
    let source = obj(vec![("a", num(1)), ("b", num(2))]);
    let transform = obj(vec![
        ("@jdt.merge", attributed("$.c", num(30))),
        ("@jdt.rename", obj(vec![("b", text("c"))])),
        ("@jdt.replace", attributed("$.b", num(20))),
        ("@jdt.remove", text("a")),
    ]);
    assert_eq!(
        apply(&source, &transform).unwrap(),
        obj(vec![("c", num(30))])
    );
}

#[test]
fn selector_errors_carry_their_kind() {
    let source = obj(vec![("a", num(1))]);
    let cases: Vec<(&str, fn(&JsonPathError) -> bool)> = vec![
        ("  ", |e| matches!(e, JsonPathError::Empty)),
        ("$.a[", |e| {
            matches!(e, JsonPathError::Invalid { at: 4, msg: "unterminated [" })
        }),
        ("@.a", |e| matches!(e, JsonPathError::Unsupported("leading @"))),
    ];
    for (selector, expected) in cases {
        let transform = verb("@jdt.remove", obj(vec![("@jdt.path", text(selector))]));
        match apply(&source, &transform).unwrap_err() {
            JdtError::JsonPath(e) => assert!(expected(&e)),
            other => panic!("unexpected {:?}", other),
        }
    }
    let deep = "$".to_string() + &".a".repeat(257);
    let transform = verb("@jdt.merge", attributed(&deep, num(1)));
    assert!(matches!(
        apply(&source, &transform).unwrap_err(),
        JdtError::JsonPath(JsonPathError::TooDeep)
    ));
}

#[test]
fn attribute_errors_name_the_attribute() {
    let source = obj(vec![("a", num(1))]);
    let missing_path = verb("@jdt.replace", obj(vec![("@jdt.value", num(1))]));
    assert!(matches!(
        apply(&source, &missing_path).unwrap_err(),
        JdtError::MissingAttribute("@jdt.path")
    ));
    let missing_value = verb("@jdt.merge", obj(vec![("@jdt.path", text("$.a"))]));
    assert!(matches!(
        apply(&source, &missing_value).unwrap_err(),
        JdtError::MissingAttribute("@jdt.value")
    ));
    let path_not_string = verb("@jdt.rename", attributed("$", num(1)));
    assert!(matches!(
        apply(&source, &path_not_string).unwrap_err(),
        JdtError::AttributeNotString("@jdt.value")
    ));
    let bad_path = verb(
        "@jdt.rename",
        obj(vec![("@jdt.path", JsonValue::Null), ("@jdt.value", text("x"))]),
    );
    assert!(matches!(
        apply(&source, &bad_path).unwrap_err(),
        JdtError::AttributeNotString("@jdt.path")
    ));
}

#[test]
fn source_not_object_from_operators() {
    let source = obj(vec![("a", obj(vec![("b", num(1))]))]);
    let transform = obj(vec![(
        "a",
        obj(vec![(
            "@jdt.merge",
            arr(vec![num(5), obj(vec![("c", num(1))])]),
        )]),
    )]);
    assert!(matches!(
        apply(&source, &transform).unwrap_err(),
        JdtError::SourceNotObject
    ));
}

#[test]
fn nested_transform_must_be_an_object_where_it_recurses() {
    let source = obj(vec![("a", obj(vec![("b", obj(vec![]))]))]);
    let transform = obj(vec![("a", obj(vec![("b", obj(vec![("@jdt.remove", num(1))]))]))]);
    assert!(matches!(
        apply(&source, &transform).unwrap_err(),
        JdtError::TransformNotObject
    ));
}
