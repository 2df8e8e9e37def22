use jdt_codegen::engine::{
    apply_replace_selector, default_transform, is_attributed_call, is_jdt_syntax,
    parse_selector_required, process_transform, remove_path_cmp, remove_paths, rename_at_path,
    verb_remove_core, verb_rename_core,
};
use jdt_codegen::jsonpath::{filter_matches, normalize_index, FilterExpr, Segment};
use jdt_codegen::parser::{
    has_bytes_at, parse_filter, parse_ident, parse_index_or_union, parse_int, parse_literal,
    parse_name, skip_ws, string_literal_value,
};
use jdt_codegen::path::{child_of, clone_path, get_at, get_mut_at};
use jdt_codegen::text::{is_whitespace, push_decimal, slice_str, str_equal, trim};
use jdt_codegen::{JdtError, JsonNumber, JsonObject, JsonPath, JsonPathError, JsonValue, PathItem};
use std::cmp::Ordering;

fn num(n: i64) -> JsonValue {
    JsonValue::Number(JsonNumber::from_i64(n))
}

fn text(t: &str) -> JsonValue {
    JsonValue::String(t.to_string())
}

fn object(entries: Vec<(&str, JsonValue)>) -> JsonObject {
    let mut o = JsonObject::new();
    for (k, v) in entries {
        o.insert(k.to_string(), v);
    }
    o
}

fn obj(entries: Vec<(&str, JsonValue)>) -> JsonValue {
    JsonValue::Object(object(entries))
}

fn arr(items: Vec<JsonValue>) -> JsonValue {
    JsonValue::Array(items)
}

fn key(k: &str) -> PathItem {
    PathItem::Key(k.to_string())
}

#[test]
fn number_from_i64() {
    assert_eq!(JsonNumber::from_i64(0), JsonNumber::PosInt(0));
    assert_eq!(JsonNumber::from_i64(7), JsonNumber::PosInt(7));
    assert_eq!(JsonNumber::from_i64(-7), JsonNumber::NegInt(-7));
    assert_eq!(JsonNumber::from_i64(i64::MAX), JsonNumber::PosInt(i64::MAX as u64));
    assert_eq!(JsonNumber::from_i64(i64::MIN), JsonNumber::NegInt(i64::MIN));
}

#[test]
fn json_equality() {
    assert_eq!(num(1), num(1));
    assert_ne!(num(1), num(2));
    assert_ne!(num(1), text("1"));
    assert_ne!(JsonValue::Null, JsonValue::Bool(false));
    assert_ne!(
        JsonValue::Number(JsonNumber::PosInt(1)),
        JsonValue::Number(JsonNumber::Float(1.0f64.to_bits()))
    );
    assert_eq!(arr(vec![num(1), num(2)]), arr(vec![num(1), num(2)]));
    assert_ne!(arr(vec![num(1), num(2)]), arr(vec![num(2), num(1)]));
    assert_ne!(arr(vec![num(1)]), arr(vec![num(1), num(1)]));
    assert_eq!(
        obj(vec![("a", num(1)), ("b", arr(vec![obj(vec![("c", text("x"))])]))]),
        obj(vec![("b", arr(vec![obj(vec![("c", text("x"))])])), ("a", num(1))])
    );
    assert_ne!(obj(vec![("a", num(1))]), obj(vec![("a", num(1)), ("b", num(2))]));
    assert_ne!(obj(vec![("a", num(1))]), obj(vec![("b", num(1))]));
    let v = obj(vec![("a", arr(vec![num(1), JsonValue::Null]))]);
    assert_eq!(v.clone(), v);
    assert!(v.equals(&v.clone()));
}

#[test]
fn object_insert_replaces_in_place() {
    let mut o = object(vec![("a", num(1)), ("b", num(2))]);
    assert_eq!(o.insert("a".to_string(), num(9)), Some(num(1)));
    assert_eq!(o.len(), 2);
    assert_eq!(o.key_at(0), "a");
    assert_eq!(o.value_at(0), &num(9));
    assert_eq!(o.index_of("b"), Some(1));
    assert_eq!(o.index_of("c"), None);
    assert!(o.contains_key("b"));
    assert!(!o.contains_key("B"));
    *o.get_mut("b").unwrap() = text("x");
    *o.value_at_mut(0) = JsonValue::Null;
    assert_eq!(
        JsonValue::Object(o),
        obj(vec![("a", JsonValue::Null), ("b", text("x"))])
    );
}

#[test]
fn text_helpers() {
    assert!(str_equal("héllo", "héllo"));
    assert!(!str_equal("héllo", "hello"));
    assert!(!str_equal("a", "ab"));
    assert!(str_equal("", ""));
    for c in [' ', '\t', '\n', '\u{b}', '\u{c}', '\r', '\u{85}', '\u{a0}', '\u{1680}',
        '\u{2000}', '\u{200a}', '\u{2028}', '\u{2029}', '\u{202f}', '\u{205f}', '\u{3000}']
    {
        assert!(is_whitespace(c));
        assert!(c.is_whitespace());
    }
    for c in ['a', '\u{feff}', '\u{200b}', '\u{8}', '\u{e}', '\u{1f}', '\u{2060}', '\u{180e}'] {
        assert!(!is_whitespace(c));
        assert!(!c.is_whitespace());
    }
    for s in ["", " ", "a", "  a b \t", "\u{3000}é\u{a0}", "\n\n", " \u{feff} "] {
        assert_eq!(trim(s), s.trim());
    }
    assert_eq!(slice_str("aébc", 1, 3), "é");
    assert_eq!(slice_str("aébc", 0, 0), "");
    assert_eq!(slice_str("aébc", 3, 5), "bc");
    let mut out = String::from("n=");
    push_decimal(&mut out, 0);
    push_decimal(&mut out, 10);
    push_decimal(&mut out, 907);
    assert_eq!(out, "n=010907");
    let mut out = String::new();
    push_decimal(&mut out, usize::MAX);
    assert_eq!(out, usize::MAX.to_string());
}

#[test]
fn normalize_index_values() {
    assert_eq!(normalize_index(0, 3), Some(0));
    assert_eq!(normalize_index(2, 3), Some(2));
    assert_eq!(normalize_index(3, 3), None);
    assert_eq!(normalize_index(-1, 3), Some(2));
    assert_eq!(normalize_index(-3, 3), Some(0));
    assert_eq!(normalize_index(-4, 3), None);
    assert_eq!(normalize_index(0, 0), None);
    assert_eq!(normalize_index(-1, 0), None);
    assert_eq!(normalize_index(i64::MIN, 3), None);
    assert_eq!(normalize_index(i64::MAX, 3), None);
}

#[test]
fn scanning_functions() {
    assert_eq!(skip_ws(" \t\r\n\u{c}x", 0), 5);
    assert_eq!(skip_ws("ab", 1), 1);
    assert_eq!(skip_ws("a ", 1), 2);
    assert_eq!(skip_ws("a", 5), 5);
    assert_eq!(skip_ws("\u{a0}a", 0), 0);
    assert!(has_bytes_at(b"hello", 1, b"ell"));
    assert!(!has_bytes_at(b"hello", 3, b"lol"));
    assert!(has_bytes_at(b"hello", 5, b""));
    assert!(!has_bytes_at(b"hello", 6, b""));
    assert_eq!(parse_name("$.ab[0]", 2).unwrap(), "ab");
    assert_eq!(parse_name("a é.b", 0).unwrap(), "a é");
    assert!(matches!(
        parse_name("$..b", 2).unwrap_err(),
        JsonPathError::Invalid { at: 2, msg: "expected name" }
    ));
    assert!(matches!(
        parse_name("$.", 2).unwrap_err(),
        JsonPathError::Invalid { at: 2, msg: "expected name" }
    ));
    assert_eq!(parse_ident("@.a_B9)", 2).unwrap(), ("a_B9".to_string(), 6));
    assert!(matches!(
        parse_ident("@.é", 2).unwrap_err(),
        JsonPathError::Invalid { at: 2, msg: "expected identifier" }
    ));
    assert_eq!(parse_int("[12,", 1).unwrap(), (12, 3));
    assert_eq!(parse_int("-0", 0).unwrap(), (0, 2));
    assert_eq!(parse_int("-45x", 0).unwrap(), (-45, 3));
    assert_eq!(
        parse_int("-9223372036854775808", 0).unwrap(),
        (i64::MIN, 20)
    );
    assert_eq!(parse_int("9223372036854775807]", 0).unwrap(), (i64::MAX, 19));
    for (input, msg) in [
        ("", "expected int"),
        ("-", "expected int"),
        ("+1", "expected int"),
        ("x", "expected int"),
        ("9223372036854775808", "invalid int"),
        ("-9223372036854775809", "invalid int"),
        ("99999999999999999999999999999999999999999", "invalid int"),
    ] {
        match parse_int(input, 0).unwrap_err() {
            JsonPathError::Invalid { at, msg: m } => assert_eq!((at, m), (0, msg)),
            other => panic!("unexpected {:?}", other),
        }
    }
}

#[test]
fn bracket_contents() {
    match parse_index_or_union("[ 7 ]", 1).unwrap() {
        (Segment::Index(7), 4) => {}
        other => panic!("unexpected {:?}", other),
    }
    match parse_index_or_union("[1, -2 ,3]", 1).unwrap() {
        (Segment::UnionIndices(v), 9) => assert_eq!(v, vec![1, -2, 3]),
        other => panic!("unexpected {:?}", other),
    }
    assert!(matches!(
        parse_index_or_union("[1,]", 1).unwrap_err(),
        JsonPathError::Invalid { at: 3, msg: "expected int" }
    ));
    match parse_filter("?( @.a )", 2).unwrap() {
        (FilterExpr::Exists(name), 7) => assert_eq!(name, "a"),
        other => panic!("unexpected {:?}", other),
    }
    match parse_filter("@.a==null)", 0).unwrap() {
        (FilterExpr::Equals(name, JsonValue::Null), 9) => assert_eq!(name, "a"),
        other => panic!("unexpected {:?}", other),
    }
    assert_eq!(parse_literal("true)", 0).unwrap(), (JsonValue::Bool(true), 4));
    assert_eq!(parse_literal("false", 0).unwrap(), (JsonValue::Bool(false), 5));
    assert_eq!(parse_literal("x null", 2).unwrap(), (JsonValue::Null, 6));
    assert_eq!(parse_literal("-12]", 0).unwrap(), (num(-12), 3));
    assert_eq!(
        parse_literal(r#""a\\" rest"#, 0).unwrap(),
        (text("a\\"), 5)
    );
    assert_eq!(
        parse_literal("\"\\u00e9\\n\"", 0).unwrap(),
        (text("é\n"), 10)
    );
    assert!(matches!(
        parse_literal("\"abc\\", 0).unwrap_err(),
        JsonPathError::Invalid { at: 0, msg: "unterminated string literal" }
    ));
    assert!(matches!(
        parse_literal("\"a\tb\"", 0).unwrap_err(),
        JsonPathError::Invalid { at: 0, msg: "invalid string literal" }
    ));
    assert_eq!(
        string_literal_value(Some("x".to_string()), 3, 9).unwrap(),
        (text("x"), 9)
    );
    assert!(matches!(
        string_literal_value(None, 3, 9).unwrap_err(),
        JsonPathError::Invalid { at: 3, msg: "invalid string literal" }
    ));
}

#[test]
fn filters_on_candidates() {
    let exists = FilterExpr::Exists("a".to_string());
    assert!(filter_matches(&exists, &obj(vec![("a", num(0))])));
    assert!(filter_matches(&exists, &obj(vec![("a", JsonValue::Bool(false))])));
    assert!(!filter_matches(&exists, &obj(vec![("a", JsonValue::Null)])));
    assert!(!filter_matches(&exists, &obj(vec![("b", num(0))])));
    assert!(!filter_matches(&exists, &arr(vec![num(0)])));
    let equals = FilterExpr::Equals("a".to_string(), JsonValue::Null);
    assert!(filter_matches(&equals, &obj(vec![("a", JsonValue::Null)])));
    assert!(!filter_matches(&equals, &obj(vec![("b", JsonValue::Null)])));
    assert!(!filter_matches(&equals, &JsonValue::Null));
    let equals = FilterExpr::Equals("a".to_string(), num(3));
    assert!(filter_matches(&equals, &obj(vec![("a", num(3))])));
    assert!(!filter_matches(&equals, &obj(vec![("a", text("3"))])));
}

#[test]
fn walking_paths() {
    let mut doc = obj(vec![("a", arr(vec![num(1), obj(vec![("b", text("x"))])]))]);
    assert_eq!(get_at(&doc, &[]), Some(&doc));
    assert_eq!(
        get_at(&doc, &[key("a"), PathItem::Index(1), key("b")]),
        Some(&text("x"))
    );
    assert_eq!(get_at(&doc, &[key("a"), PathItem::Index(2)]), None);
    assert_eq!(get_at(&doc, &[key("a"), key("b")]), None);
    assert_eq!(get_at(&doc, &[PathItem::Index(0)]), None);
    assert_eq!(child_of(&doc, &key("a")).map(|v| v.clone()), get_at(&doc, &[key("a")]).cloned());
    *get_mut_at(&mut doc, &[key("a"), PathItem::Index(0)]).unwrap() = JsonValue::Null;
    assert!(get_mut_at(&mut doc, &[key("zz")]).is_none());
    assert_eq!(
        doc,
        obj(vec![("a", arr(vec![JsonValue::Null, obj(vec![("b", text("x"))])]))])
    );
    let path = vec![key("a"), PathItem::Index(3)];
    assert_eq!(clone_path(&path), path);
    assert!(PathItem::Index(1) < PathItem::Index(2));
    assert!(key("a") < key("b"));
}

#[test]
fn deletion_order() {
    let a = [key("x"), PathItem::Index(1)];
    let b = [PathItem::Index(9)];
    assert_eq!(remove_path_cmp(&a, &b), Ordering::Less);
    assert_eq!(remove_path_cmp(&b, &a), Ordering::Greater);
    assert_eq!(remove_path_cmp(&[], &[]), Ordering::Equal);
    assert_eq!(
        remove_path_cmp(&[PathItem::Index(2)], &[PathItem::Index(1)]),
        Ordering::Less
    );
    assert_eq!(
        remove_path_cmp(&[PathItem::Index(1)], &[PathItem::Index(1)]),
        Ordering::Equal
    );
    assert_eq!(
        remove_path_cmp(&[PathItem::Index(0)], &[PathItem::Index(1)]),
        Ordering::Greater
    );
    assert_eq!(remove_path_cmp(&[key("b")], &[key("a")]), Ordering::Less);
    assert_eq!(remove_path_cmp(&[key("a")], &[key("ab")]), Ordering::Greater);
    assert_eq!(remove_path_cmp(&[key("é")], &[key("z")]), Ordering::Less);
    assert_eq!(remove_path_cmp(&[key("a")], &[key("a")]), Ordering::Equal);
    assert_eq!(remove_path_cmp(&[key("a")], &[PathItem::Index(0)]), Ordering::Equal);
    assert_eq!(
        remove_path_cmp(&[key("q"), PathItem::Index(5)], &[key("r"), PathItem::Index(5)]),
        Ordering::Equal
    );
}

#[test]
fn remove_paths_on_a_document() {
    let mut doc = arr(vec![num(0), num(1), num(2), num(3)]);
    let paths = vec![
        vec![PathItem::Index(1)],
        vec![PathItem::Index(3)],
        vec![PathItem::Index(1)],
        vec![PathItem::Index(0)],
    ];
    remove_paths(&mut doc, &paths, true).unwrap();
    assert_eq!(doc, arr(vec![num(2)]));
    let mut doc = obj(vec![("a", num(1))]);
    assert!(matches!(
        remove_paths(&mut doc, &[vec![]], true).unwrap_err(),
        JdtError::RootOperationNotAllowed
    ));
    remove_paths(&mut doc, &[vec![]], false).unwrap();
    assert_eq!(doc, JsonValue::Null);
    let mut doc = obj(vec![("a", num(1)), ("b", num(2))]);
    remove_paths(&mut doc, &[vec![key("zz")], vec![key("a"), key("b")], vec![key("a")]], true)
        .unwrap();
    assert_eq!(doc, obj(vec![("b", num(2))]));
}

#[test]
fn syntax_keys_and_attributes() {
    for k in ["@jdt.remove", "@jdt.replace", "@jdt.rename", "@jdt.merge", "@jdt.path",
        "@jdt.value", "@jdt.", "@jdt.anything", "@jdt.é"]
    {
        assert!(is_jdt_syntax(k), "{}", k);
    }
    for k in ["", "@jdt", "jdt.remove", " @jdt.remove", "@JDT.remove", "@jdtx", "é@jdt."] {
        assert!(!is_jdt_syntax(k), "{}", k);
    }
    assert!(is_attributed_call(&object(vec![("@jdt.path", num(1))])));
    assert!(is_attributed_call(&object(vec![("x", num(1)), ("@jdt.value", num(1))])));
    assert!(!is_attributed_call(&object(vec![("path", num(1))])));
    assert!(parse_selector_required(&object(vec![("@jdt.path", text("$.a"))])).is_ok());
    assert!(matches!(
        parse_selector_required(&object(vec![])).unwrap_err(),
        JdtError::MissingAttribute("@jdt.path")
    ));
    assert!(matches!(
        parse_selector_required(&object(vec![("@jdt.path", num(1))])).unwrap_err(),
        JdtError::AttributeNotString("@jdt.path")
    ));
    assert!(matches!(
        parse_selector_required(&object(vec![("@jdt.path", text("$["))])).unwrap_err(),
        JdtError::JsonPath(JsonPathError::Invalid { at: 2, msg: "unterminated [" })
    ));
    assert!(matches!(
        JdtError::from(JsonPathError::TooDeep),
        JdtError::JsonPath(JsonPathError::TooDeep)
    ));
}

#[test]
fn default_overlay_on_entries() {
    let mut doc = obj(vec![("a", arr(vec![num(1)])), ("b", num(2)), ("c", num(3))]);
    let transform = object(vec![
        ("b", arr(vec![num(9)])),
        ("a", arr(vec![num(8)])),
        ("@jdt.x", num(0)),
        ("c", num(4)),
        ("d", JsonValue::Null),
    ]);
    default_transform(&mut doc, &transform, &vec!["c".to_string()]);
    match &doc {
        JsonValue::Object(o) => {
            let keys: Vec<&str> = (0..o.len()).map(|i| o.key_at(i).as_str()).collect();
            assert_eq!(keys, vec!["a", "b", "c", "d"]);
        }
        _ => panic!("not an object"),
    }
    assert_eq!(
        doc,
        obj(vec![
            ("a", arr(vec![num(1), num(8)])),
            ("b", arr(vec![num(9)])),
            ("c", num(3)),
            ("d", JsonValue::Null),
        ])
    );
    let mut scalar = num(1);
    default_transform(&mut scalar, &transform, &vec![]);
    assert_eq!(scalar, num(1));
}

#[test]
fn selector_copies() {
    let jp = JsonPath::parse("$.a[0,1][?(@.b == \"x\")]").unwrap();
    let copy = jp.clone();
    let doc = obj(vec![(
        "a",
        arr(vec![
            arr(vec![obj(vec![("b", text("x"))])]),
            arr(vec![obj(vec![("b", text("y"))]), obj(vec![("b", text("x"))])]),
        ]),
    )]);
    assert_eq!(jp.select_paths(&doc), copy.select_paths(&doc));
    assert_eq!(
        copy.select_paths(&doc),
        vec![
            vec![key("a"), PathItem::Index(0), PathItem::Index(0)],
            vec![key("a"), PathItem::Index(1), PathItem::Index(1)],
        ]
    );
}

#[test]
fn float_zeros_are_equal() {
    let zero = JsonNumber::Float(0.0f64.to_bits());
    let minus_zero = JsonNumber::Float((-0.0f64).to_bits());
    assert_eq!(zero, minus_zero);
    assert_eq!(JsonValue::Number(zero), JsonValue::Number(minus_zero));
    assert_eq!(
        arr(vec![JsonValue::Number(minus_zero)]),
        arr(vec![JsonValue::Number(zero)])
    );
    assert_ne!(zero, JsonNumber::Float(1.5f64.to_bits()));
    assert_ne!(zero, JsonNumber::PosInt(0));
    assert_ne!(JsonNumber::NegInt(-1), JsonNumber::PosInt(1));
    assert_eq!(
        JsonNumber::Float(2.5f64.to_bits()),
        JsonNumber::Float(2.5f64.to_bits())
    );
}

#[test]
fn a_failing_operator_leaves_what_it_has_done() {
    let start = obj(vec![("a", num(1)), ("arr", arr(vec![num(1)]))]);

    let mut doc = start.clone();
    assert!(matches!(
        verb_remove_core(&mut doc, &JsonValue::Bool(true), true).unwrap_err(),
        JdtError::RootOperationNotAllowed
    ));
    assert_eq!(doc, start);

    let mut doc = start.clone();
    assert!(matches!(
        rename_at_path(&mut doc, &vec![], "new").unwrap_err(),
        JdtError::RenameNotProperty
    ));
    assert_eq!(doc, start);

    let mut doc = start.clone();
    assert!(matches!(
        rename_at_path(&mut doc, &vec![key("arr"), PathItem::Index(0)], "x").unwrap_err(),
        JdtError::RenameNotProperty
    ));
    assert_eq!(doc, start);

    let mut doc = start.clone();
    assert!(matches!(
        remove_paths(&mut doc, &[vec![], vec![key("a")]], true).unwrap_err(),
        JdtError::RootOperationNotAllowed
    ));
    assert_eq!(doc, obj(vec![("arr", arr(vec![num(1)]))]));

    let mut doc = start.clone();
    let selector = JsonPath::parse("$.a").unwrap();
    assert!(apply_replace_selector(&mut doc, &selector, &num(7), true).is_ok());
    let root = JsonPath::parse("$").unwrap();
    let mut doc = start.clone();
    assert!(matches!(
        apply_replace_selector(&mut doc, &root, &num(7), true).unwrap_err(),
        JdtError::RootOperationNotAllowed
    ));
    assert_eq!(doc, start);

    let mut doc = start.clone();
    let mapping = obj(vec![("a", text("z")), ("arr", num(0))]);
    assert!(matches!(
        verb_rename_core(&mut doc, &mapping).unwrap_err(),
        JdtError::AttributeNotString("@jdt.value")
    ));
    assert_eq!(doc, obj(vec![("arr", arr(vec![num(1)])), ("z", num(1))]));

    let mut doc = obj(vec![("x", obj(vec![("p", num(1))])), ("y", obj(vec![]))]);
    let transform = obj(vec![
        ("x", obj(vec![("q", num(2))])),
        ("y", obj(vec![("@jdt.remove", num(3))])),
    ]);
    assert!(matches!(
        process_transform(&mut doc, &transform, true).unwrap_err(),
        JdtError::TransformNotObject
    ));
    assert_eq!(
        doc,
        obj(vec![("x", obj(vec![("p", num(1)), ("q", num(2))])), ("y", obj(vec![]))])
    );
}
