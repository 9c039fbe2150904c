use json_rs::error::{tok_err, JsonError};
use json_rs::number::JsonNumber;
use json_rs::parser::json_parse;
use json_rs::serialize::{escape_str, unicode_escape};
use json_rs::value::{JsonObject, JsonValue};

fn num(text: &str) -> JsonValue {
    JsonValue::Number(JsonNumber::from_text(text).unwrap())
}

fn float(x: f64) -> JsonValue {
    num(&x.to_string())
}

fn text(s: &str) -> JsonValue {
    JsonValue::Text(s.to_string())
}

fn unexpected(character: char, location: usize) -> Result<JsonValue, JsonError> {
    Err(JsonError::UnexpectedToken { character, location })
}

#[test]
fn str_escape() {
    let tests = [
        ("dlksjd)\t", "dlksjd)\\t"),
        ("aaaa  \u{8}  \n", "aaaa  \\b  \\n"),
        (
            "asj \"as[ldkjasl # \u{2} s",
            "asj \\\"as[ldkjasl # \\u0002 s",
        ),
        ("", ""),
        ("    ", "    "),
        ("\u{C}-  \\ \r +#@* {} \" ", "\\f-  \\\\ \\r +#@* {} \\\" "),
        (" aa-\u{1a}_@", " aa-\\u001a_@"),
    ];

    for (t, res) in tests.iter() {
        assert_eq!(escape_str(t), format!("\"{}\"", res));
    }
}

#[test]
fn unicode_escape_pads_to_four_digits() {
    assert_eq!(unicode_escape('\u{0}'), "\\u0000");
    assert_eq!(unicode_escape('\u{1f}'), "\\u001f");
    assert_eq!(unicode_escape('\u{cd}'), "\\u00cd");
    assert_eq!(unicode_escape('\u{20ac}'), "\\u20ac");
    assert_eq!(unicode_escape('\u{1f600}'), "\\u1f600");
    assert_eq!(unicode_escape('\u{10ffff}'), "\\u10ffff");
}

#[test]
fn stringify() {
    // The members of an object are written in the order in which they were inserted.
    let tests = vec![
        (
            JsonValue::Array(vec![float(10f64), float(20f64), float(30f64)]),
            "[10,20,30]",
        ),
        (
            JsonValue::Object({
                let mut map = JsonObject::new();
                map.insert(
                    "aaaa".into(),
                    JsonValue::Array(vec![
                        JsonValue::Null,
                        JsonValue::Object(JsonObject::new()),
                        JsonValue::Boolean(false),
                        JsonValue::Array(vec![JsonValue::Array(vec![]), float(10e10)]),
                    ]),
                );
                map
            }),
            r#"{"aaaa":[null,{},false,[[],100000000000]]}"#,
        ),
        (JsonValue::Array(vec![]), "[]"),
    ];

    for (value, stringified) in tests.into_iter() {
        assert_eq!(value.to_string(), stringified);
    }
}

#[test]
fn stringify_scalars_and_members() {
    assert_eq!(JsonValue::Null.to_string(), "null");
    assert_eq!(JsonValue::Boolean(true).to_string(), "true");
    assert_eq!(JsonValue::Boolean(false).to_string(), "false");
    assert_eq!(text("a\"b\u{1}").to_string(), "\"a\\\"b\\u0001\"");
    assert_eq!(num("-1.50E+3").to_string(), "-1.50e+3");
    let mut map = JsonObject::new();
    map.insert("b".into(), num("1"));
    map.insert("a\n".into(), text("x"));
    map.insert("b".into(), JsonValue::Null);
    assert_eq!(
        JsonValue::Object(map).to_string(),
        "{\"b\":null,\"a\\n\":\"x\"}"
    );
}

#[test]
fn parse_documents() {
    let mut expected = JsonObject::new();
    expected.insert("key".into(), num("10"));
    expected.insert("otherKey".into(), text("value"));
    expected.insert("aaa".into(), JsonValue::Array(vec![num("1"), num("2"), num("3")]));
    assert_eq!(
        json_parse(
            r#"{
            "key": 10,
            "otherKey": "value",
            "aaa": [ 1, 2, 3 ]
        }"#
        ),
        Ok(JsonValue::Object(expected))
    );

    let mut inner = JsonObject::new();
    inner.insert("e}".into(), num("2"));
    inner.insert(
        "v".into(),
        JsonValue::Array(vec![JsonValue::Null, JsonValue::Array(vec![])]),
    );
    let mut flags = JsonObject::new();
    flags.insert("f".into(), JsonValue::Boolean(false));
    flags.insert("t".into(), JsonValue::Boolean(true));
    assert_eq!(
        json_parse(r#"[10, ", \" 2{]0", 30, {"f": false, "t":true}, {"e}": 2, "v": [null, []]}]"#),
        Ok(JsonValue::Array(vec![
            num("10"),
            text(", \" 2{]0"),
            num("30"),
            JsonValue::Object(flags),
            JsonValue::Object(inner),
        ]))
    );
    assert_eq!(
        json_parse(r#""as asdlkajd \" \f|\t""#),
        Ok(text("as asdlkajd \" \u{c}|\t"))
    );
    assert_eq!(json_parse("-0.30e20"), Ok(num("-0.30e20")));
    assert_eq!(json_parse("230E20"), Ok(num("230e20")));
    assert_eq!(json_parse("0e5"), Ok(num("0e5")));
    assert_eq!(json_parse("  null "), Ok(JsonValue::Null));
    assert_eq!(json_parse("false"), Ok(JsonValue::Boolean(false)));
}

#[test]
fn parse_exact_literals() {
    assert_eq!(
        json_parse("[1,2,3]"),
        Ok(JsonValue::Array(vec![num("1"), num("2"), num("3")]))
    );
    assert_eq!(json_parse("{}"), Ok(JsonValue::Object(JsonObject::new())));
    assert_eq!(json_parse("\"ab\\\"cd\""), Ok(text("ab\"cd")));
    assert_eq!(json_parse("true"), Ok(JsonValue::Boolean(true)));
}

#[test]
fn parse_rejects_a_leading_zero() {
    assert_eq!(json_parse("01"), unexpected('1', 1));
    assert_eq!(json_parse("[01]"), unexpected('1', 2));
    assert_eq!(json_parse("-01"), unexpected('1', 2));
}

#[test]
fn parse_rejects_a_trailing_comma() {
    assert_eq!(json_parse("[1,2,]"), unexpected(']', 5));
    assert_eq!(json_parse("{\"a\":1,}"), unexpected('}', 7));
    assert_eq!(json_parse("[,]"), unexpected(',', 1));
    assert_eq!(json_parse("[1,,2]"), unexpected(',', 3));
}

#[test]
fn parse_empty_input() {
    assert_eq!(json_parse(""), Err(JsonError::UnexpectedEOF));
    assert_eq!(json_parse("   "), Err(JsonError::UnexpectedEOF));
}

#[test]
fn parse_rejects_an_unquoted_key() {
    assert_eq!(json_parse("{a:1}"), unexpected('a', 1));
    assert_eq!(json_parse("{ \"a\":1, b:2}"), unexpected('b', 9));
    assert_eq!(json_parse("{1:1}"), unexpected('1', 1));
}

#[test]
fn parse_ignores_whitespace_outside_strings() {
    assert_eq!(json_parse(" [ 1 , 2 ] "), json_parse("[1,2]"));
    assert_eq!(
        json_parse("\t{ \"a\" :\n[ true ,null ]\r}\n"),
        json_parse("{\"a\":[true,null]}")
    );
    assert_eq!(json_parse("\" a \""), Ok(text(" a ")));
}

#[test]
fn parse_premature_end() {
    for t in vec!["[", "[1", "[1,", "{\"a\":", "\"abc", "tru", "nul", "-", "1.", "1e", "1e+", "{\"a\"", "[[1]"] {
        assert_eq!(json_parse(t), Err(JsonError::UnexpectedEOF), "{}", t);
    }
}

#[test]
fn parse_error_offsets() {
    assert_eq!(json_parse("#"), unexpected('#', 0));
    assert_eq!(json_parse("true false"), unexpected('f', 5));
    assert_eq!(json_parse("trux"), unexpected('x', 3));
    assert_eq!(json_parse("1 2"), unexpected('2', 2));
    assert_eq!(json_parse("1.x"), unexpected('x', 2));
    assert_eq!(json_parse("1e+ "), unexpected(' ', 3));
    assert_eq!(json_parse("]"), unexpected(']', 0));
    assert_eq!(json_parse("[1}"), unexpected('}', 2));
    assert_eq!(json_parse("[1 2]"), unexpected('2', 3));
    assert_eq!(json_parse("[\"a\tb\"]"), unexpected('\t', 3));
    assert_eq!(json_parse("[1,[2,x]]"), unexpected('x', 6));
    assert_eq!(json_parse("[tru]"), unexpected(']', 4));
    assert_eq!(json_parse("[1e+,2]"), unexpected(',', 4));
    assert_eq!(json_parse("{\"a\"}"), unexpected('}', 4));
    assert_eq!(json_parse("{\"a\":1:2}"), unexpected(':', 6));
    assert_eq!(json_parse("{\"a\",1}"), unexpected(',', 4));
    assert_eq!(json_parse("[1:2]"), unexpected(':', 2));
    assert_eq!(json_parse("\"\\x\""), unexpected('x', 2));
    assert_eq!(json_parse("\"\\ud800\""), unexpected('0', 6));
    assert_eq!(json_parse("[1] x"), unexpected('x', 4));
    assert_eq!(json_parse("[1,\u{e9}]"), unexpected('\u{e9}', 3));
    assert_eq!(tok_err('x', 3), JsonError::UnexpectedToken { character: 'x', location: 3 });
}

#[test]
fn parse_reports_an_error_inside_what_is_left_open() {
    assert_eq!(json_parse("[1, 2x"), unexpected('x', 5));
    assert_eq!(json_parse("{\"a\": [1, tx"), unexpected('x', 11));
}

#[test]
fn parse_keeps_the_last_of_two_equal_keys() {
    let v = json_parse("{\"a\":1,\"b\":2,\"a\":3}").unwrap();
    assert_eq!(v.get("a"), Some(&num("3")));
    assert_eq!(v.get("b"), Some(&num("2")));
    assert_eq!(v.to_string(), "{\"a\":3,\"b\":2}");
}

#[test]
fn parse_of_stringify_gives_the_value_back() {
    let mut map = JsonObject::new();
    map.insert("k\"1\\".into(), text("\u{0}\u{1f} \n\t\r\u{8}\u{c}\"\\/ \u{e9}\u{1f600}"));
    map.insert("".into(), JsonValue::Array(vec![]));
    map.insert("n".into(), num("-12.5e-3"));
    map.insert("o".into(), JsonValue::Object(JsonObject::new()));
    let v = JsonValue::Array(vec![
        JsonValue::Null,
        JsonValue::Boolean(true),
        JsonValue::Boolean(false),
        num("0"),
        text("[,]{:}"),
        JsonValue::Object(map),
        JsonValue::Array(vec![JsonValue::Array(vec![num("1e5")])]),
    ]);
    assert_eq!(json_parse(&v.to_string()), Ok(v));
}

#[test]
fn stringify_of_parse_is_stable() {
    for t in vec![
        " [ 1 , 2.50 , -3E+2 ] ",
        "{ \"b\" : [ ] , \"a\" : { \"x\" : \"\\u0041\\n\" } }",
        "\"\\u00e9\"",
        "null",
    ] {
        let first = json_parse(t).unwrap();
        let again = json_parse(&first.to_string()).unwrap();
        assert_eq!(first, again);
        assert_eq!(first.to_string(), again.to_string());
    }
}

#[test]
fn stringify_of_a_delete_character_does_not_read_back() {
    let v = json_parse("\"\\u007f\"").unwrap();
    assert_eq!(v, text("\u{7f}"));
    assert_eq!(json_parse(&v.to_string()), unexpected('\u{7f}', 1));
}

#[test]
fn object_insert_and_get() {
    let mut map = JsonObject::new();
    assert_eq!(map.get("a"), None);
    map.insert("a".into(), JsonValue::Null);
    map.insert("b".into(), JsonValue::Boolean(true));
    map.insert("a".into(), JsonValue::Boolean(false));
    assert_eq!(map.get("a"), Some(&JsonValue::Boolean(false)));
    assert_eq!(map.get("b"), Some(&JsonValue::Boolean(true)));
    assert_eq!(map.get("c"), None);
    assert_eq!(map.members.len(), 2);
}

#[test]
fn equality_ignores_the_order_of_members() {
    let mut a = JsonObject::new();
    a.insert("x".into(), num("1"));
    a.insert("y".into(), JsonValue::Array(vec![JsonValue::Null]));
    let mut b = JsonObject::new();
    b.insert("y".into(), JsonValue::Array(vec![JsonValue::Null]));
    b.insert("x".into(), num("1"));
    assert_eq!(JsonValue::Object(a), JsonValue::Object(b));
    assert_eq!(
        json_parse("{\"a\":{\"p\":1,\"q\":2},\"b\":[]}"),
        json_parse("{\"b\":[],\"a\":{\"q\":2,\"p\":1}}")
    );
    assert_ne!(json_parse("{\"a\":1}"), json_parse("{\"a\":2}"));
    assert_ne!(json_parse("{\"a\":1}"), json_parse("{\"a\":1,\"b\":1}"));
    assert_ne!(json_parse("{\"a\":1,\"b\":1}"), json_parse("{\"a\":1}"));
    assert_ne!(json_parse("[1,2]"), json_parse("[2,1]"));
    assert_ne!(json_parse("[1]"), json_parse("[1,1]"));
    assert_ne!(json_parse("1"), json_parse("1.0"));
    assert_ne!(json_parse("\"1\""), json_parse("1"));
    assert!(text("a").same(&text("a")));
    assert!(!JsonValue::Null.same(&JsonValue::Boolean(false)));
}

#[test]
fn clone_gives_an_equal_value() {
    let v = json_parse("{\"a\":[1,\"x\",null,{\"b\":-2.5e3}],\"c\":true}").unwrap();
    let w = v.clone();
    assert_eq!(v, w);
    assert_eq!(v.to_string(), w.to_string());
}

#[test]
fn get_by_key_and_by_index() {
    let json = JsonValue::Object({
        let mut map = JsonObject::new();
        map.insert("key".into(), JsonValue::Boolean(true));
        map.insert("10".into(), JsonValue::Null);
        map
    });
    assert_eq!(json.get("key"), Some(&JsonValue::Boolean(true)));
    assert_eq!(json.get("nonexistent"), None);
    assert_eq!(json.get_ind(10), Some(&JsonValue::Null));
    assert_eq!(json.get_ind(1), None);
    assert_eq!(json.get_ind(0), None);

    let simple_boolean = JsonValue::Boolean(true);
    assert_eq!(simple_boolean.get("key_of_some_sort"), None);
    assert_eq!(simple_boolean.get_ind(0), None);

    let json = JsonValue::Array(vec![
        JsonValue::Null,
        text("aaaskjw"),
        float(10.0),
        JsonValue::Boolean(true),
    ]);
    assert_eq!(json.get_ind(1), Some(&text("aaaskjw")));
    assert_eq!(json.get_ind(3), Some(&JsonValue::Boolean(true)));
    assert_eq!(json.get_ind(10), None);
    assert_eq!(json.get("1"), Some(&text("aaaskjw")));
    assert_eq!(json.get("+3"), Some(&JsonValue::Boolean(true)));
    assert_eq!(json.get("003"), Some(&JsonValue::Boolean(true)));
    assert_eq!(json.get("4"), None);
    assert_eq!(json.get(""), None);
    assert_eq!(json.get("+"), None);
    assert_eq!(json.get("-0"), None);
    assert_eq!(json.get(" 1"), None);
    assert_eq!(json.get("1x"), None);
    assert_eq!(json.get("99999999999999999999999999"), None);
}

#[test]
fn get_mut_changes_the_value_in_place() {
    let mut json = JsonValue::Object({
        let mut map = JsonObject::new();
        map.insert("number".into(), float(10f64));
        map.insert("7".into(), JsonValue::Null);
        map
    });
    assert_eq!(json.get("number"), Some(&float(10f64)));
    if let Some(value) = json.get_mut("number") {
        *value = float(15f64);
    }
    assert_eq!(json.get("number"), Some(&float(15f64)));
    if let Some(value) = json.get_ind_mut(7) {
        *value = JsonValue::Boolean(true);
    }
    assert_eq!(json.get("7"), Some(&JsonValue::Boolean(true)));
    assert!(json.get_mut("other").is_none());
    assert!(json.get_ind_mut(8).is_none());

    let mut json = JsonValue::Array(vec![text("abcd")]);
    assert_eq!(json.get_ind(0), Some(&text("abcd")));
    if let Some(JsonValue::Text(st)) = json.get_ind_mut(0) {
        st.push_str("efg");
    }
    assert_eq!(json.get_ind(0), Some(&text("abcdefg")));
    if let Some(value) = json.get_mut("0") {
        *value = JsonValue::Null;
    }
    assert_eq!(json, JsonValue::Array(vec![JsonValue::Null]));
    assert!(json.get_mut("1").is_none());
    assert!(json.get_ind_mut(1).is_none());
    assert!(JsonValue::Null.get_mut("0").is_none());
}

#[test]
fn an_error_names_the_character_at_its_offset() {
    for t in vec![
        "01", "[1,2,]", "{a:1}", "[1 2]", "{\"a\":1:2}", "[\"a\tb\"]", "[1,[2,x]]", "tru ",
        " \u{e9}\u{1f600}[x", "[\u{1f600}]", "{\"k\u{e9}\":#}", "[1e+,2]", "1.x", "]", "\"\\q\"",
    ] {
        match json_parse(t) {
            Err(JsonError::UnexpectedToken { character, location }) => {
                assert_eq!(t.chars().nth(location), Some(character), "{}", t);
            }
            other => panic!("{} gave {:?}", t, other),
        }
    }
}

#[test]
fn whitespace_around_a_text_keeps_its_value() {
    for t in vec!["[1,2]", "{\"a\":\" b \"}", "12", "-0.5e1", "true", "null", "\" \""] {
        let bare = json_parse(t);
        assert!(bare.is_ok());
        for (before, after) in vec![("", " "), (" ", ""), ("\n\t ", "\r\n"), ("\u{a0}", "\u{3000}")] {
            assert_eq!(json_parse(&format!("{}{}{}", before, t, after)), bare, "{}", t);
        }
    }
    // a text without a value is another matter: what is blamed moves or changes
    assert_eq!(json_parse("1e"), Err(JsonError::UnexpectedEOF));
    assert_eq!(json_parse("1e "), unexpected(' ', 2));
    assert_eq!(json_parse(" 01"), unexpected('1', 2));
}

#[test]
fn numbers_keep_their_digits() {
    assert_eq!(json_parse("1.0").unwrap().to_string(), "1.0");
    assert_eq!(json_parse("1E+05").unwrap().to_string(), "1e+05");
    assert_eq!(json_parse("-0").unwrap().to_string(), "-0");
    assert_eq!(
        json_parse("123456789012345678901234567890.5").unwrap().to_string(),
        "123456789012345678901234567890.5"
    );
    let n = JsonNumber::from_text("230e20").unwrap();
    assert_eq!(n.to_string().parse::<f64>().unwrap(), 230e20);
    assert_eq!(JsonNumber::from_text(&n.to_string()), Some(n));
}

#[test]
fn whitespace_between_the_tokens_keeps_the_value() {
    let v = json_parse("[1,{\"a\":[],\"b c\":{}},\"x y\",[[null]],true]").unwrap();
    for pad in vec![" ", "\t\n", " \r\n \u{2003}"] {
        let spaced = "P[P1P,P{P\"a\"P:P[P]P,P\"b c\"P:P{P}P}P,P\"x y\"P,P[P[PnullP]P]P,PtrueP]P"
            .replace('P', pad);
        assert_eq!(json_parse(&spaced), Ok(json_parse("[1,{\"a\":[],\"b c\":{}},\"x y\",[[null]],true]").unwrap()));
        assert_eq!(json_parse(&spaced).unwrap(), v);
    }
    // inside a token whitespace is another matter
    assert_eq!(json_parse("[1 2]"), unexpected('2', 3));
    assert_eq!(json_parse("tr ue"), unexpected(' ', 2));
    assert_eq!(json_parse("\" \""), Ok(text(" ")));
}
