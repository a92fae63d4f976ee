use rayclaw::json::{self, Json, JsonNumber};
use rayclaw::paths;
use rayclaw::text;

fn value(text: &str) -> Json {
    json::parse(text).unwrap()
}

#[test]
fn documents() {
    assert_eq!(value("null"), Json::Null);
    assert_eq!(value("true"), Json::Bool(true));
    assert_eq!(value("7"), Json::Number(JsonNumber::Unsigned(7)));
    assert_eq!(value("18446744073709551615"), Json::Number(JsonNumber::Unsigned(u64::MAX)));
    assert_eq!(value("-7"), Json::Number(JsonNumber::Negative(-7)));
    assert_eq!(
        value("-9223372036854775808"),
        Json::Number(JsonNumber::Negative(i64::MIN))
    );
    assert_eq!(value("1.5"), Json::Number(JsonNumber::Other("1.5".into())));
    assert_eq!(value("\"a\\n\""), Json::Text("a\n".into()));
    assert_eq!(value("[1,[]]"), Json::Array(vec![json::number(1), Json::Array(vec![])]));
    // The members of an object stand in the order of their keys.
    assert_eq!(
        value("{\"b\":1,\"a\":{\"c\":2}}"),
        Json::Object(vec![
            ("a".into(), Json::Object(vec![("c".into(), json::number(2))])),
            ("b".into(), json::number(1)),
        ])
    );
    assert!(json::parse("{").is_none());
    assert!(json::parse("").is_none());
    assert!(json::parse("1 2").is_none());
}

#[test]
fn texts_are_read_back() {
    for doc in [
        "null",
        "[]",
        "{}",
        "-1",
        "0",
        "1.25",
        "1e300",
        "[true,false,\"\\u00e4\",[[1],{}]]",
        "{\"a\":[1,2,{\"b\":null}],\"c\":\"d\"}",
    ] {
        let v = value(doc);
        assert_eq!(value(&v.to_text()), v, "{doc}");
        assert_eq!(value(&v.to_indented_text()), v, "{doc}");
        assert_eq!(v.clone(), v);
    }
    assert_eq!(value("{\"b\":[1,-2],\"a\":0.5}").to_text(), "{\"a\":0.5,\"b\":[1,-2]}");
    assert_eq!(value("{\"a\":[1]}").to_indented_text(), "{\n  \"a\": [\n    1\n  ]\n}");
}

#[test]
fn parts_of_values() {
    let v = value("{\"s\":\"x\",\"n\":5,\"m\":-5,\"b\":true,\"l\":[1],\"o\":{\"p\":{\"q\":\"z\"}}}");
    assert_eq!(v.get_str("s"), Some("x"));
    assert_eq!(v.get_str("n"), None);
    assert_eq!(v.get_u64("n"), Some(5));
    assert_eq!(v.get_u64("m"), None);
    assert_eq!(v.get_i64("m"), Some(-5));
    assert_eq!(v.get_i64("n"), Some(5));
    assert_eq!(v.get_bool("b"), Some(true));
    assert_eq!(v.get_array("l").unwrap().len(), 1);
    assert_eq!(v.get_str_or_empty("none"), "");
    assert_eq!(v.at3("o", "p", "q").unwrap().as_str(), Some("z"));
    assert_eq!(v.text2("o", "p"), None);
    assert!(v.at2("s", "t").is_none());
    assert_eq!(value("18446744073709551615").as_i64(), None);
}

#[test]
fn file_paths() {
    assert_eq!(paths::join("/a", "b"), "/a/b");
    assert_eq!(paths::join("/a/", "b"), "/a/b");
    assert_eq!(paths::join("", "b"), "b");
    assert_eq!(paths::join("/a", "/b"), "/b");
    assert_eq!(paths::file_name_of("/a/b.txt"), Some("b.txt".to_string()));
    assert_eq!(paths::extension_of("/a/b.tar.gz"), "gz");
    assert_eq!(paths::extension_of("/a/.hidden"), "");
    assert_eq!(paths::extension_of("/a.b/c"), "");
}

#[test]
fn helpers_for_text() {
    assert_eq!(text::trimmed("\u{3000} a\t\n"), "a");
    assert_eq!(text::lines_of("a\r\nb\n\nc"), vec!["a", "b", "", "c"]);
    assert_eq!(text::split_on("a,b,", ','), vec!["a", "b", ""]);
    assert_eq!(text::replaced("aXbXc", "X", "--"), "a--b--c");
    assert_eq!(text::decimal(u64::MAX), "18446744073709551615");
    assert_eq!(text::decimal_signed(i64::MIN), "-9223372036854775808");
    assert_eq!(text::parse_i32("-2147483648"), Some(i32::MIN));
    assert_eq!(text::parse_i32("2147483648"), None);
    assert_eq!(text::ascii_lowered("AbÄ"), "abÄ");
    assert_eq!(text::len_bytes("aé€😀"), 10);
    assert_eq!(
        text::sorted_set(&vec!["b".into(), "a".into(), "b".into()]),
        vec!["a", "b"]
    );
    assert_eq!(text::stripped("''a''", '\''), "a");
}
