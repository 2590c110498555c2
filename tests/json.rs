use toyjq::{print_json, Json};

#[derive(Debug, PartialEq)]
enum J {
    JNumber(f64),
    JString(String),
    JBool(bool),
    JNull,
    JArray(Vec<J>),
    JObject(Vec<(String, J)>),
}

fn plain(j: &Json) -> J {
    match j {
        Json::JNumber(n) => J::JNumber(n.parse::<f64>().unwrap()),
        Json::JString(s) => J::JString(s.clone()),
        Json::JBool(b) => J::JBool(*b),
        Json::JNull => J::JNull,
        Json::JArray(items) => J::JArray(items.iter().map(plain).collect()),
        Json::JObject(ms) => J::JObject(ms.iter().map(|(k, v)| (k.clone(), plain(v))).collect()),
    }
}

fn parsed(s: &str) -> J {
    plain(&Json::from_str(s).unwrap())
}

fn num(v: f64) -> Json {
    Json::JNumber(format!("{}", v))
}

fn s(x: &str) -> Json {
    Json::JString(x.to_string())
}

fn obj(ms: Vec<(&str, Json)>) -> Json {
    Json::JObject(ms.into_iter().map(|(k, v)| (k.to_string(), v)).collect())
}

fn sample() -> Json {
    Json::JArray(vec![
        num(42f64),
        s("foo"),
        Json::JBool(true),
        Json::JBool(false),
        Json::JArray(vec![]),
        Json::JArray(vec![Json::JNull]),
        obj(vec![]),
        obj(vec![("poem", s("Lorem ipsum"))]),
        obj(vec![
            ("a", num(1f64)),
            ("foo-bar-baz", s("1 2 Fizz 4 Buzz 6 7 8 Fizz Buzz")),
            ("Numbers", Json::JArray((1..20).map(|i: i32| num(i as f64)).collect())),
        ]),
    ])
}

const NARROW: &str = r#"[
  42,
  "foo",
  true,
  false,
  [],
  [
    null
  ],
  {},
  {
    "poem": "Lorem ipsum"
  },
  {
    "a": 1,
    "foo-bar-baz": "1 2 Fizz 4 Buzz 6 7 8 Fizz Buzz",
    "Numbers": [
      1,
      2,
      3,
      4,
      5,
      6,
      7,
      8,
      9,
      10,
      11,
      12,
      13,
      14,
      15,
      16,
      17,
      18,
      19
    ]
  }
]"#;

const MEDIUM: &str = r#"[
  42,
  "foo",
  true,
  false,
  [],
  [ null ],
  {},
  { "poem": "Lorem ipsum" },
  {
    "a": 1,
    "foo-bar-baz": "1 2 Fizz 4 Buzz 6 7 8 Fizz Buzz",
    "Numbers": [ 1, 2, 3, 4, 5, 6, 7, 8, 9, 10, 11, 12, 13, 14, 15, 16, 17, 18, 19 ]
  }
]"#;

const WIDE: &str = r#"[ 42, "foo", true, false, [], [ null ], {}, { "poem": "Lorem ipsum" }, { "a": 1, "foo-bar-baz": "1 2 Fizz 4 Buzz 6 7 8 Fizz Buzz", "Numbers": [ 1, 2, 3, 4, 5, 6, 7, 8, 9, 10, 11, 12, 13, 14, 15, 16, 17, 18, 19 ] } ]"#;

#[test]
fn test_json_pretty_print() {
    let json = sample();
    assert_eq!(json.pretty_print(1), NARROW);
    assert_eq!(json.pretty_print(84), MEDIUM);
    assert_eq!(json.pretty_print(215), WIDE);
}

#[test]
fn test_print_json() {
    let json = sample();
    assert_eq!(print_json(&json, 1), NARROW);
    assert_eq!(print_json(&json, 84), MEDIUM);
    assert_eq!(print_json(&json, 215), WIDE);
}

#[test]
fn json_test_parse_json() {
    assert_eq!(parsed("123"), J::JNumber(123f64));
    assert_eq!(parsed("\"fooo\""), J::JString("fooo".to_string()));
    assert_eq!(
        parsed("[1, -2, 3.0E4, true, false, null]"),
        J::JArray(vec![
            J::JNumber(1f64),
            J::JNumber(-2f64),
            J::JNumber(30000f64),
            J::JBool(true),
            J::JBool(false),
            J::JNull,
        ])
    );
    assert_eq!(
        parsed("{\"key1\" : 123, \"key2\" : \"foo\"}"),
        J::JObject(vec![
            ("key1".to_string(), J::JNumber(123f64)),
            ("key2".to_string(), J::JString("foo".to_string())),
        ])
    );
    let e = Json::from_str("[[null, null ],[null ,null      null] , [ null ] ] ").unwrap_err();
    assert_eq!((e.retry, e.pos), (false, 26));
}

#[test]
fn jsonparser_test_parse_json() {
    assert_eq!(parsed("123"), J::JNumber(123f64));
    assert_eq!(parsed("\"fooo\""), J::JString("fooo".to_string()));
    assert_eq!(
        parsed("[1, -2, 3.0E4, true, false, null]"),
        J::JArray(vec![
            J::JNumber(1f64),
            J::JNumber(-2f64),
            J::JNumber(30000f64),
            J::JBool(true),
            J::JBool(false),
            J::JNull,
        ])
    );
    assert_eq!(
        parsed("{\"key1\" : 123, \"key2\" : \"foo\"}"),
        J::JObject(vec![
            ("key1".to_string(), J::JNumber(123f64)),
            ("key2".to_string(), J::JString("foo".to_string())),
        ])
    );
    assert_eq!(
        parsed("[{\"key1\" : 123, \"key2\" : \"foo\"}, 123, [\"foo\", true]]"),
        J::JArray(vec![
            J::JObject(vec![
                ("key1".to_string(), J::JNumber(123f64)),
                ("key2".to_string(), J::JString("foo".to_string())),
            ]),
            J::JNumber(123f64),
            J::JArray(vec![J::JString("foo".to_string()), J::JBool(true)]),
        ])
    );
}

#[test]
fn object_keeps_key_order_and_duplicates() {
    let j = Json::from_str("{\"b\" : 1, \"a\" : 2, \"b\" : 3}").unwrap();
    match j {
        Json::JObject(ms) => {
            let keys: Vec<&str> = ms.iter().map(|(k, _)| k.as_str()).collect();
            assert_eq!(keys, vec!["b", "a", "b"]);
        }
        _ => panic!("not an object"),
    }
}

#[test]
fn empty_containers_render_bare_at_any_width() {
    for w in [0, 1, 2, 80, 1000] {
        assert_eq!(Json::JArray(vec![]).pretty_print(w), "[]");
        assert_eq!(obj(vec![]).pretty_print(w), "{}");
    }
    assert_eq!(Json::from_str("[]").unwrap().pretty_print(0), "[]");
    assert_eq!(Json::from_str("{}").unwrap().pretty_print(0), "{}");
}

#[test]
fn bad_number_is_reported() {
    let e = Json::from_str("[1-]").unwrap_err();
    assert!(!e.retry);
    assert_eq!(e.message, "Unable to parse a number: 1-");
    let e = Json::from_str("x").unwrap_err();
    assert_eq!(e.message, "Unable to parse a number: ");
    assert_eq!(e.pos, 0);
}

#[test]
fn trailing_comma_is_rejected() {
    let e = Json::from_str("[1, ]").unwrap_err();
    assert!(!e.retry);
}

#[test]
fn string_is_taken_verbatim() {
    assert_eq!(parsed(r#""a\n""#), J::JString("a\\n".to_string()));
}

#[test]
fn rendered_output_parses_back() {
    let inputs = [
        "[1, -2, 3.0E4, true, false, null]",
        "{\"key1\" : 123, \"key2\" : \"foo\"}",
        "[{\"key1\" : 123, \"key2\" : \"foo\"}, 123, [\"foo\", true], [], {}]",
    ];
    for input in inputs.iter() {
        let first = Json::from_str(input).unwrap();
        // Width 200 lays everything out on one line, which the grammar reads
        // back (it skips spaces, not line breaks).
        let out = first.pretty_print(200);
        assert!(!out.contains('\n'));
        assert_eq!(plain(&Json::from_str(&out).unwrap()), plain(&first));
    }
}

#[test]
fn narrow_output_is_indented_by_two() {
    let j = Json::from_str("[[1], {\"a\" : [true]}]").unwrap();
    assert_eq!(j.pretty_print(0), "[\n  [\n    1\n  ],\n  {\n    \"a\": [\n      true\n    ]\n  }\n]");
    assert_eq!(j.pretty_print(30), "[ [ 1 ], { \"a\": [ true ] } ]");
}

#[test]
fn line_breaks_are_not_skipped() {
    // The grammar skips spaces around punctuation, not line breaks.
    let e = Json::from_str("\n[1]").unwrap_err();
    assert_eq!(e.pos, 0);
    assert!(Json::from_str("[ 1 ,  2 ]").is_ok());
}

#[test]
fn to_doc_renders_like_pretty_print() {
    let j = Json::from_str("{\"a\" : [1, 2], \"b\" : null}").unwrap();
    let doc = toyjq::Doc::new(vec![j.to_doc()]);
    assert_eq!(doc.pretty(10), j.pretty_print(10));
    assert_eq!(j.pretty_print(100), "{ \"a\": [ 1, 2 ], \"b\": null }");
}
