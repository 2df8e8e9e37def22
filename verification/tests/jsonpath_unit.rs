use jdt_codegen::{JsonNumber, JsonObject, JsonPath, JsonPathError, JsonValue, PathItem};

fn num(n: i64) -> JsonValue {
    JsonValue::Number(JsonNumber::from_i64(n))
}

fn text(t: &str) -> JsonValue {
    JsonValue::String(t.to_string())
}

fn obj(entries: Vec<(&str, JsonValue)>) -> JsonValue {
    let mut o = JsonObject::new();
    for (k, v) in entries {
        o.insert(k.to_string(), v);
    }
    JsonValue::Object(o)
}

fn arr(items: Vec<JsonValue>) -> JsonValue {
    JsonValue::Array(items)
}

fn key(k: &str) -> PathItem {
    PathItem::Key(k.into())
}

// ── Parsing ──────────────────────────────────────────────────────────────

#[test]
fn parse_absolute_child() {
    let jp = JsonPath::parse("$.foo").unwrap();
    let paths = jp.select_paths(&obj(vec![("foo", num(1))]));
    assert_eq!(paths, vec![vec![PathItem::Key("foo".into())]]);
}

#[test]
fn parse_relative_child() {
    let jp = JsonPath::parse("foo").unwrap();
    let paths = jp.select_paths(&obj(vec![("foo", num(1))]));
    assert_eq!(paths, vec![vec![PathItem::Key("foo".into())]]);
}

#[test]
fn parse_nested_child() {
    let jp = JsonPath::parse("$.a.b.c").unwrap();
    let paths = jp.select_paths(&obj(vec![(
        "a",
        obj(vec![("b", obj(vec![("c", num(42))]))]),
    )]));
    assert_eq!(
        paths,
        vec![vec![
            PathItem::Key("a".into()),
            PathItem::Key("b".into()),
            PathItem::Key("c".into()),
        ]]
    );
}

#[test]
fn parse_relative_dotted() {
    let jp = JsonPath::parse("a.b").unwrap();
    let paths = jp.select_paths(&obj(vec![("a", obj(vec![("b", num(1))]))]));
    assert_eq!(
        paths,
        vec![vec![PathItem::Key("a".into()), PathItem::Key("b".into()),]]
    );
}

#[test]
fn parse_dollar_only() {
    let jp = JsonPath::parse("$").unwrap();
    let paths = jp.select_paths(&obj(vec![("x", num(1))]));
    // "$" selects the root itself -> empty path
    assert_eq!(paths, vec![vec![]]);
}

#[test]
fn parse_array_index() {
    let jp = JsonPath::parse("$.arr[0]").unwrap();
    let paths = jp.select_paths(&obj(vec![("arr", arr(vec![num(10), num(20), num(30)]))]));
    assert_eq!(
        paths,
        vec![vec![PathItem::Key("arr".into()), PathItem::Index(0)]]
    );
}

#[test]
fn parse_negative_index() {
    let jp = JsonPath::parse("$.arr[-1]").unwrap();
    let paths = jp.select_paths(&obj(vec![("arr", arr(vec![num(10), num(20), num(30)]))]));
    assert_eq!(
        paths,
        vec![vec![PathItem::Key("arr".into()), PathItem::Index(2)]]
    );
}

#[test]
fn parse_negative_index_first() {
    let jp = JsonPath::parse("$.arr[-3]").unwrap();
    let paths = jp.select_paths(&obj(vec![("arr", arr(vec![num(10), num(20), num(30)]))]));
    assert_eq!(
        paths,
        vec![vec![PathItem::Key("arr".into()), PathItem::Index(0)]]
    );
}

#[test]
fn parse_negative_index_out_of_bounds() {
    let jp = JsonPath::parse("$.arr[-4]").unwrap();
    let paths = jp.select_paths(&obj(vec![("arr", arr(vec![num(10), num(20), num(30)]))]));
    assert!(paths.is_empty());
}

#[test]
fn parse_union_indices() {
    let jp = JsonPath::parse("$.arr[0,2]").unwrap();
    let paths = jp.select_paths(&obj(vec![(
        "arr",
        arr(vec![text("a"), text("b"), text("c")]),
    )]));
    assert_eq!(
        paths,
        vec![
            vec![PathItem::Key("arr".into()), PathItem::Index(0)],
            vec![PathItem::Key("arr".into()), PathItem::Index(2)],
        ]
    );
}

#[test]
fn parse_union_with_whitespace() {
    let jp = JsonPath::parse("$.arr[ 0 , 1 ]").unwrap();
    let paths = jp.select_paths(&obj(vec![(
        "arr",
        arr(vec![text("a"), text("b"), text("c")]),
    )]));
    assert_eq!(
        paths,
        vec![
            vec![PathItem::Key("arr".into()), PathItem::Index(0)],
            vec![PathItem::Key("arr".into()), PathItem::Index(1)],
        ]
    );
}

#[test]
fn parse_filter_exists() {
    let jp = JsonPath::parse("$.items[?(@.active)]").unwrap();
    let data = obj(vec![(
        "items",
        arr(vec![
            obj(vec![("name", text("a")), ("active", JsonValue::Bool(true))]),
            obj(vec![("name", text("b"))]),
            obj(vec![("name", text("c")), ("active", JsonValue::Bool(false))]),
        ]),
    )]);
    let paths = jp.select_paths(&data);
    // "active" exists and is non-null on index 0, and exists but is false (not null) on index 2
    assert_eq!(
        paths,
        vec![
            vec![PathItem::Key("items".into()), PathItem::Index(0)],
            vec![PathItem::Key("items".into()), PathItem::Index(2)],
        ]
    );
}

#[test]
fn parse_filter_exists_null_excluded() {
    let jp = JsonPath::parse("$.items[?(@.active)]").unwrap();
    let data = obj(vec![(
        "items",
        arr(vec![
            obj(vec![("name", text("a")), ("active", JsonValue::Null)]),
            obj(vec![("name", text("b")), ("active", JsonValue::Bool(true))]),
        ]),
    )]);
    let paths = jp.select_paths(&data);
    // null is excluded by the Exists filter
    assert_eq!(
        paths,
        vec![vec![PathItem::Key("items".into()), PathItem::Index(1)]]
    );
}

#[test]
fn parse_filter_equals_string() {
    let jp = JsonPath::parse(r#"$.items[?(@.type == "book")]"#).unwrap();
    let data = obj(vec![(
        "items",
        arr(vec![
            obj(vec![("type", text("book")), ("title", text("A"))]),
            obj(vec![("type", text("dvd")), ("title", text("B"))]),
            obj(vec![("type", text("book")), ("title", text("C"))]),
        ]),
    )]);
    let paths = jp.select_paths(&data);
    assert_eq!(
        paths,
        vec![
            vec![PathItem::Key("items".into()), PathItem::Index(0)],
            vec![PathItem::Key("items".into()), PathItem::Index(2)],
        ]
    );
}

#[test]
fn parse_filter_equals_number() {
    let jp = JsonPath::parse("$.arr[?(@.x == 42)]").unwrap();
    let data = obj(vec![(
        "arr",
        arr(vec![
            obj(vec![("x", num(42))]),
            obj(vec![("x", num(0))]),
            obj(vec![("x", num(42))]),
        ]),
    )]);
    let paths = jp.select_paths(&data);
    assert_eq!(
        paths,
        vec![
            vec![PathItem::Key("arr".into()), PathItem::Index(0)],
            vec![PathItem::Key("arr".into()), PathItem::Index(2)],
        ]
    );
}

#[test]
fn parse_filter_equals_bool() {
    let jp = JsonPath::parse("$.arr[?(@.ok == true)]").unwrap();
    let data = obj(vec![(
        "arr",
        arr(vec![
            obj(vec![("ok", JsonValue::Bool(true))]),
            obj(vec![("ok", JsonValue::Bool(false))]),
        ]),
    )]);
    let paths = jp.select_paths(&data);
    assert_eq!(
        paths,
        vec![vec![PathItem::Key("arr".into()), PathItem::Index(0)]]
    );
}

#[test]
fn parse_filter_equals_null() {
    let jp = JsonPath::parse("$.arr[?(@.v == null)]").unwrap();
    let data = obj(vec![(
        "arr",
        arr(vec![obj(vec![("v", JsonValue::Null)]), obj(vec![("v", num(1))])]),
    )]);
    let paths = jp.select_paths(&data);
    assert_eq!(
        paths,
        vec![vec![PathItem::Key("arr".into()), PathItem::Index(0)]]
    );
}

#[test]
fn parse_filter_on_object() {
    let jp = JsonPath::parse("$[?(@.x == 1)]").unwrap();
    let data = obj(vec![
        ("a", obj(vec![("x", num(1))])),
        ("b", obj(vec![("x", num(2))])),
        ("c", obj(vec![("x", num(1))])),
    ]);
    let paths = jp.select_paths(&data);
    // Object iteration order is insertion order
    let keys: Vec<_> = paths
        .iter()
        .map(|p| match &p[0] {
            PathItem::Key(k) => k.as_str(),
            _ => panic!("expected key"),
        })
        .collect();
    assert!(keys.contains(&"a"));
    assert!(keys.contains(&"c"));
    assert!(!keys.contains(&"b"));
}

#[test]
fn select_missing_child_returns_empty() {
    let jp = JsonPath::parse("$.missing").unwrap();
    let paths = jp.select_paths(&obj(vec![("foo", num(1))]));
    assert!(paths.is_empty());
}

#[test]
fn select_index_on_non_array_returns_empty() {
    let jp = JsonPath::parse("$.foo[0]").unwrap();
    let paths = jp.select_paths(&obj(vec![("foo", text("not_an_array"))]));
    assert!(paths.is_empty());
}

#[test]
fn select_child_on_non_object_returns_empty() {
    let jp = JsonPath::parse("$.foo.bar").unwrap();
    let paths = jp.select_paths(&obj(vec![("foo", num(42))]));
    assert!(paths.is_empty());
}

#[test]
fn index_out_of_bounds_returns_empty() {
    let jp = JsonPath::parse("$.arr[99]").unwrap();
    let paths = jp.select_paths(&obj(vec![("arr", arr(vec![num(1), num(2)]))]));
    assert!(paths.is_empty());
}

// ── Error cases ──────────────────────────────────────────────────────────

#[test]
fn error_empty_input() {
    let err = JsonPath::parse("").unwrap_err();
    assert!(matches!(err, JsonPathError::Empty));
}

#[test]
fn error_whitespace_only() {
    let err = JsonPath::parse("   ").unwrap_err();
    assert!(matches!(err, JsonPathError::Empty));
}

#[test]
fn error_bom_only() {
    let err = JsonPath::parse("\u{feff}").unwrap_err();
    assert!(matches!(err, JsonPathError::Empty));
}

#[test]
fn error_leading_at() {
    let err = JsonPath::parse("@.foo").unwrap_err();
    assert!(matches!(err, JsonPathError::Unsupported(_)));
}

#[test]
fn error_unterminated_bracket() {
    let err = JsonPath::parse("$.foo[").unwrap_err();
    assert!(matches!(err, JsonPathError::Invalid { .. }));
}

#[test]
fn error_missing_close_bracket() {
    let err = JsonPath::parse("$.foo[0").unwrap_err();
    assert!(matches!(err, JsonPathError::Invalid { .. }));
}

#[test]
fn error_unexpected_char() {
    let err = JsonPath::parse("$!foo").unwrap_err();
    assert!(matches!(err, JsonPathError::Invalid { .. }));
}

#[test]
fn error_empty_name_after_dot() {
    let err = JsonPath::parse("$.").unwrap_err();
    assert!(matches!(err, JsonPathError::Invalid { .. }));
}

#[test]
fn error_filter_missing_at() {
    let err = JsonPath::parse("$.arr[?(foo)]").unwrap_err();
    assert!(matches!(err, JsonPathError::Unsupported(_)));
}

#[test]
fn error_filter_missing_paren() {
    let err = JsonPath::parse("$.arr[?@.foo]").unwrap_err();
    assert!(matches!(err, JsonPathError::Invalid { .. }));
}

#[test]
fn error_too_deep() {
    // Build a path with >256 segments
    let path = "$".to_string() + &".a".repeat(300);
    let err = JsonPath::parse(&path).unwrap_err();
    assert!(matches!(err, JsonPathError::TooDeep));
}

// ── BOM handling ─────────────────────────────────────────────────────────

#[test]
fn bom_prefix_stripped() {
    let jp = JsonPath::parse("\u{feff}$.foo").unwrap();
    let paths = jp.select_paths(&obj(vec![("foo", num(1))]));
    assert_eq!(paths, vec![vec![PathItem::Key("foo".into())]]);
}

// ── PathItem as text ─────────────────────────────────────────────────────

#[test]
fn path_item_display_key() {
    assert_eq!(PathItem::Key("foo".into()).to_string(), ".foo");
}

#[test]
fn path_item_display_index() {
    assert_eq!(PathItem::Index(3).to_string(), "[3]");
}

// ── strip_bom utility ────────────────────────────────────────────────────

#[test]
fn strip_bom_with_bom() {
    assert_eq!(jdt_codegen::strip_bom("\u{feff}hello"), "hello");
}

#[test]
fn strip_bom_without_bom() {
    assert_eq!(jdt_codegen::strip_bom("hello"), "hello");
}

#[test]
fn strip_bom_empty() {
    assert_eq!(jdt_codegen::strip_bom(""), "");
}

// ── Further selector cases ───────────────────────────────────────────────

#[test]
fn selector_with_256_segments_parses() {
    let path = "$".to_string() + &".a".repeat(256);
    assert!(JsonPath::parse(&path).is_ok());
}

#[test]
fn selector_with_257_segments_is_too_deep() {
    let path = "$".to_string() + &".a".repeat(257);
    assert!(matches!(
        JsonPath::parse(&path).unwrap_err(),
        JsonPathError::TooDeep
    ));
}

#[test]
fn relative_selector_counts_its_first_name() {
    let ok = "a".to_string() + &".a".repeat(255);
    assert!(JsonPath::parse(&ok).is_ok());
    let deep = "a".to_string() + &".a".repeat(256);
    assert!(matches!(
        JsonPath::parse(&deep).unwrap_err(),
        JsonPathError::TooDeep
    ));
}

#[test]
fn dollar_returns_root_path_once() {
    let jp = JsonPath::parse("$").unwrap();
    let paths = jp.select_paths(&arr(vec![num(1), num(2)]));
    assert_eq!(paths.len(), 1);
    assert!(paths[0].is_empty());
}

#[test]
fn union_keeps_written_order_and_duplicates() {
    let jp = JsonPath::parse("$[2,0,2,-1]").unwrap();
    let paths = jp.select_paths(&arr(vec![num(1), num(2), num(3)]));
    assert_eq!(
        paths,
        vec![
            vec![PathItem::Index(2)],
            vec![PathItem::Index(0)],
            vec![PathItem::Index(2)],
            vec![PathItem::Index(2)],
        ]
    );
}

#[test]
fn union_drops_out_of_range_indices() {
    let jp = JsonPath::parse("$[0,7,-9,1]").unwrap();
    let paths = jp.select_paths(&arr(vec![num(1), num(2), num(3)]));
    assert_eq!(paths, vec![vec![PathItem::Index(0)], vec![PathItem::Index(1)]]);
}

#[test]
fn negative_index_gives_same_path_as_its_position() {
    let data = arr(vec![num(1), num(2), num(3), num(4)]);
    for k in 1..=4i64 {
        let neg = JsonPath::parse(&format!("$[-{}]", k)).unwrap();
        let pos = JsonPath::parse(&format!("$[{}]", 4 - k)).unwrap();
        assert_eq!(neg.select_paths(&data), pos.select_paths(&data));
        assert_eq!(
            neg.select_paths(&data),
            vec![vec![PathItem::Index((4 - k) as usize)]]
        );
    }
}

#[test]
fn index_one_below_range_matches_nothing() {
    let jp = JsonPath::parse("$[-4]").unwrap();
    assert!(jp.select_paths(&arr(vec![num(1), num(2), num(3)])).is_empty());
    let jp = JsonPath::parse("$[-1]").unwrap();
    assert!(jp.select_paths(&arr(vec![])).is_empty());
}

#[test]
fn filter_on_object_follows_entry_order() {
    let jp = JsonPath::parse("$[?(@.x)]").unwrap();
    let data = obj(vec![
        ("z", obj(vec![("x", num(1))])),
        ("b", obj(vec![("y", num(2))])),
        ("a", obj(vec![("x", num(3))])),
    ]);
    assert_eq!(jp.select_paths(&data), vec![vec![key("z")], vec![key("a")]]);
}

#[test]
fn filter_string_literal_is_decoded() {
    let jp = JsonPath::parse(r#"$[?(@.t == "a\"b\u0041")]"#).unwrap();
    let data = arr(vec![
        obj(vec![("t", text("a\"bA"))]),
        obj(vec![("t", text(r#""a\"b\u0041""#))]),
        obj(vec![("t", text(r#"a\"b\u0041"#))]),
    ]);
    assert_eq!(jp.select_paths(&data), vec![vec![PathItem::Index(0)]]);
}

#[test]
fn filter_negative_number_literal() {
    let jp = JsonPath::parse("$[?(@.x == -5)]").unwrap();
    let data = arr(vec![obj(vec![("x", num(5))]), obj(vec![("x", num(-5))])]);
    assert_eq!(jp.select_paths(&data), vec![vec![PathItem::Index(1)]]);
}

#[test]
fn every_selected_path_resolves() {
    let data = obj(vec![(
        "items",
        arr(vec![
            obj(vec![("t", text("book")), ("tags", arr(vec![num(1), num(2)]))]),
            obj(vec![("t", text("dvd"))]),
            obj(vec![("t", text("book")), ("tags", arr(vec![num(3)]))]),
        ]),
    )]);
    for selector in [
        "$",
        "$.items",
        "$.items[0,2,0]",
        "$.items[?(@.t == \"book\")].tags[-1]",
        "$.items[?(@.tags)].t",
        "items[1].t",
    ] {
        let jp = JsonPath::parse(selector).unwrap();
        for path in jp.select_paths(&data) {
            assert!(jdt_codegen::path::get_at(&data, &path).is_some());
        }
    }
}

#[test]
fn error_messages_and_offsets() {
    match JsonPath::parse("  $.foo[  x").unwrap_err() {
        JsonPathError::Invalid { at, msg } => {
            assert_eq!(at, 8);
            assert_eq!(msg, "expected int");
        }
        other => panic!("unexpected {:?}", other),
    }
    match JsonPath::parse("$.foo[").unwrap_err() {
        JsonPathError::Invalid { at, msg } => {
            assert_eq!((at, msg), (6, "unterminated ["));
        }
        other => panic!("unexpected {:?}", other),
    }
    match JsonPath::parse("$.é!x[0").unwrap_err() {
        JsonPathError::Invalid { at, msg } => {
            assert_eq!((at, msg), (8, "expected ]"));
        }
        other => panic!("unexpected {:?}", other),
    }
    match JsonPath::parse("$.").unwrap_err() {
        JsonPathError::Invalid { at, msg } => {
            assert_eq!((at, msg), (2, "expected name"));
        }
        other => panic!("unexpected {:?}", other),
    }
    match JsonPath::parse("$!foo").unwrap_err() {
        JsonPathError::Invalid { at, msg } => {
            assert_eq!((at, msg), (1, "unexpected character"));
        }
        other => panic!("unexpected {:?}", other),
    }
    match JsonPath::parse("$[?@.a]").unwrap_err() {
        JsonPathError::Invalid { at, msg } => {
            assert_eq!((at, msg), (3, "expected ("));
        }
        other => panic!("unexpected {:?}", other),
    }
    match JsonPath::parse("$[?(@.a]").unwrap_err() {
        JsonPathError::Invalid { at, msg } => {
            assert_eq!((at, msg), (7, "expected )"));
        }
        other => panic!("unexpected {:?}", other),
    }
    match JsonPath::parse("$[?(@.a)").unwrap_err() {
        JsonPathError::Invalid { at, msg } => {
            assert_eq!((at, msg), (8, "expected ]"));
        }
        other => panic!("unexpected {:?}", other),
    }
    match JsonPath::parse("$[?(@.)]").unwrap_err() {
        JsonPathError::Invalid { at, msg } => {
            assert_eq!((at, msg), (6, "expected identifier"));
        }
        other => panic!("unexpected {:?}", other),
    }
    match JsonPath::parse("$[?(@.a == \"x)]").unwrap_err() {
        JsonPathError::Invalid { at, msg } => {
            assert_eq!((at, msg), (11, "unterminated string literal"));
        }
        other => panic!("unexpected {:?}", other),
    }
    match JsonPath::parse("$[?(@.a == \"\\q\")]").unwrap_err() {
        JsonPathError::Invalid { at, msg } => {
            assert_eq!((at, msg), (11, "invalid string literal"));
        }
        other => panic!("unexpected {:?}", other),
    }
    match JsonPath::parse("@").unwrap_err() {
        JsonPathError::Unsupported(feature) => assert_eq!(feature, "leading @"),
        other => panic!("unexpected {:?}", other),
    }
    match JsonPath::parse("$[?(x)]").unwrap_err() {
        JsonPathError::Unsupported(feature) => assert_eq!(feature, "filter must start with @."),
        other => panic!("unexpected {:?}", other),
    }
}

#[test]
fn integers_at_the_edge_of_the_range() {
    assert!(JsonPath::parse("$[9223372036854775807]").is_ok());
    assert!(JsonPath::parse("$[-9223372036854775808]").is_ok());
    assert!(JsonPath::parse("$[000000000000000000000000000007]").is_ok());
    for bad in ["$[9223372036854775808]", "$[-9223372036854775809]"] {
        match JsonPath::parse(bad).unwrap_err() {
            JsonPathError::Invalid { at, msg } => assert_eq!((at, msg), (2, "invalid int")),
            other => panic!("unexpected {:?}", other),
        }
    }
}

#[test]
fn unsupported_syntax_is_refused() {
    for selector in ["$.*[", "$..a[", "$[*]", "$[0:2]", "$[?(@.a > 1)]", "$['a']"] {
        assert!(JsonPath::parse(selector).is_err(), "{}", selector);
    }
}

#[test]
fn surrounding_unicode_whitespace_is_trimmed() {
    let jp = JsonPath::parse("\u{feff}\u{2003}\t$.foo\u{a0}\n").unwrap();
    let paths = jp.select_paths(&obj(vec![("foo", num(1))]));
    assert_eq!(paths, vec![vec![key("foo")]]);
    assert!(matches!(
        JsonPath::parse("\u{feff} \u{3000}\r\n").unwrap_err(),
        JsonPathError::Empty
    ));
}

#[test]
fn names_may_hold_any_other_character() {
    let jp = JsonPath::parse("$.héllo wörld.x-y").unwrap();
    let data = obj(vec![("héllo wörld", obj(vec![("x-y", num(1))]))]);
    assert_eq!(
        jp.select_paths(&data),
        vec![vec![key("héllo wörld"), key("x-y")]]
    );
}

#[test]
fn path_item_text() {
    assert_eq!(PathItem::Index(0).to_string(), "[0]");
    assert_eq!(PathItem::Index(1234567890).to_string(), "[1234567890]");
    assert_eq!(PathItem::Key("".into()).to_string(), ".");
    assert_eq!(PathItem::Key("a.b".into()).to_string(), ".a.b");
}

#[test]
fn strip_bom_strips_one_mark_only() {
    assert_eq!(jdt_codegen::strip_bom("\u{feff}\u{feff}x"), "\u{feff}x");
    assert_eq!(jdt_codegen::strip_bom("x\u{feff}"), "x\u{feff}");
    assert_eq!(jdt_codegen::strip_bom("\u{feff}"), "");
    assert_eq!(jdt_codegen::strip_bom("\u{fefe}x"), "\u{fefe}x");
}
