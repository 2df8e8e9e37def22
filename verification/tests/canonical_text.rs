use jdt_codegen::JsonPath;

fn same(written: &str, canonical: &str) {
    let a = JsonPath::parse(written).unwrap();
    let b = JsonPath::parse(canonical).unwrap();
    assert_eq!(a, b, "{} / {}", written, canonical);
    let again = JsonPath::parse(canonical).unwrap();
    assert_eq!(b, again);
}

#[test]
fn canonical_text_parses_to_the_same_selector() {
    same("$", "$");
    same("\u{feff} $ ", "$");
    same("\u{feff}  a", "$.a");
    same("a.b c.d", "$.a.b c.d");
    same("$.a[ 007 ]", "$.a[7]");
    same("$.a[-0]", "$.a[0]");
    same("$[ -1 ,2 , 03]", "$[-1,2,3]");
    same("$[?( @.x )]", "$[?(@.x)]");
    same("$[?(@.x   ==   true)]", "$[?(@.x==true)]");
    same("$[?(@.x == false)].y", "$[?(@.x==false)].y");
    same("$[?(@.x == null)][0]", "$[?(@.x==null)][0]");
    same("$[?(@.x == -12)]", "$[?(@.x==-12)]");
    same("$[?(@.x_1 == \"a\\u0062\")]", "$[?(@.x_1==\"ab\")]");
    same("x[0][1,2].y", "$.x[0][1,2].y");
}

#[test]
fn different_selectors_differ() {
    let pairs = [
        ("$.a", "$.b"),
        ("$.a", "$.a.a"),
        ("$[0]", "$[1]"),
        ("$[0]", "$[0,0]"),
        ("$[0,1]", "$[1,0]"),
        ("$.a", "$[0]"),
        ("$[?(@.a)]", "$[?(@.b)]"),
        ("$[?(@.a)]", "$[?(@.a == null)]"),
        ("$[?(@.a == 1)]", "$[?(@.a == \"1\")]"),
        ("$[?(@.a == true)]", "$[?(@.a == false)]"),
    ];
    for (a, b) in pairs {
        assert_ne!(JsonPath::parse(a).unwrap(), JsonPath::parse(b).unwrap());
    }
}
