use json_tree::Json;

fn number(text: &str) -> Json {
    Json::Number(text.to_string())
}

fn string(text: &str) -> Json {
    Json::String(text.to_string())
}

fn as_f64(json: &Json) -> f64 {
    match json {
        Json::Number(text) => text.parse::<f64>().unwrap(),
        _ => panic!("not a number"),
    }
}

#[test]
fn null_parses_to_null() {
    assert_eq!(Json::parse(b"null"), Some(Json::Null));
}

#[test]
fn booleans_parse() {
    assert_eq!(Json::parse(b"true"), Some(Json::Boolean(true)));
    assert_eq!(Json::parse(b"false"), Some(Json::Boolean(false)));
}

#[test]
fn array_of_three_numbers() {
    let parsed = Json::parse(b"[1,2,3]").unwrap();
    assert_eq!(parsed, Json::Array(vec![number("1"), number("2"), number("3")]));
    match &parsed {
        Json::Array(items) => {
            assert_eq!(as_f64(&items[0]), 1.0);
            assert_eq!(as_f64(&items[1]), 2.0);
            assert_eq!(as_f64(&items[2]), 3.0);
        },
        _ => panic!("not an array"),
    }
}

#[test]
fn object_with_nested_array() {
    let parsed = Json::parse(b"{\"a\":1,\"b\":[true,false,null]}").unwrap();
    assert_eq!(
        parsed,
        Json::Object(vec![
            ("a".to_string(), number("1")),
            (
                "b".to_string(),
                Json::Array(vec![Json::Boolean(true), Json::Boolean(false), Json::Null]),
            ),
        ])
    );
    match &parsed {
        Json::Object(members) => {
            assert_eq!(members.len(), 2);
            assert_eq!(as_f64(&members[0].1), 1.0);
        },
        _ => panic!("not an object"),
    }
}

#[test]
fn unicode_escapes_decode_to_utf8() {
    assert_eq!(Json::parse(b"\"\\u0041\\u00e9\""), Some(string("A\u{e9}")));
    assert_eq!(Json::parse(b"\"\\u00E9\""), Some(string("\u{e9}")));
    assert_eq!(Json::parse(b"\"\\u20ac\""), Some(string("\u{20ac}")));
    assert_eq!(Json::parse(b"\"\\uffff\""), Some(string("\u{ffff}")));
    assert_eq!(Json::parse(b"\"\\u0000\""), Some(string("\u{0}")));
    assert_eq!(Json::parse(b"\"\\u007f\\u0080\\u07ff\\u0800\""), Some(string("\u{7f}\u{80}\u{7ff}\u{800}")));
}

#[test]
fn duplicate_key_fails() {
    assert_eq!(Json::parse(b"{\"a\":1,\"a\":2}"), None);
}

#[test]
fn duplicate_key_with_equal_values_fails() {
    assert_eq!(Json::parse(b"{\"a\":1,\"a\":1}"), None);
    assert_eq!(Json::parse(b"{\"a\":[],\"b\":2,\"a\":[]}"), None);
    assert_eq!(Json::parse(b"{\"a\":1,\"a\":{}}"), None);
    assert_eq!(Json::parse(b"{\"a\":1,\"\\u0061\":2}"), None);
}

#[test]
fn duplicate_key_in_different_objects_is_fine() {
    assert_eq!(
        Json::parse(b"[{\"a\":1},{\"a\":2}]"),
        Some(Json::Array(vec![
            Json::Object(vec![("a".to_string(), number("1"))]),
            Json::Object(vec![("a".to_string(), number("2"))]),
        ]))
    );
    assert_eq!(
        Json::parse(b"{\"a\":{\"a\":1}}"),
        Some(Json::Object(vec![(
            "a".to_string(),
            Json::Object(vec![("a".to_string(), number("1"))])
        )]))
    );
}

#[test]
fn trailing_comma_in_array_fails() {
    assert_eq!(Json::parse(b"[1,]"), None);
    assert_eq!(Json::parse(b"[,]"), None);
    assert_eq!(Json::parse(b"[,1]"), None);
    assert_eq!(Json::parse(b"[1,,2]"), None);
}

#[test]
fn trailing_comma_in_object_fails() {
    assert_eq!(Json::parse(b"{\"a\":1,}"), None);
    assert_eq!(Json::parse(b"{,}"), None);
    assert_eq!(Json::parse(b"{\"a\":1,,\"b\":2}"), None);
}

#[test]
fn trailing_tokens_fail() {
    assert_eq!(Json::parse(b"1 2"), None);
    assert_eq!(Json::parse(b"{} []"), None);
    assert_eq!(Json::parse(b"null null"), None);
    assert_eq!(Json::parse(b"[]]"), None);
    assert_eq!(Json::parse(b"{}}"), None);
    assert_eq!(Json::parse(b"\"a\":1"), None);
    assert_eq!(Json::parse(b"1,"), None);
}

#[test]
fn empty_containers_parse() {
    assert_eq!(Json::parse(b"[]"), Some(Json::Array(vec![])));
    assert_eq!(Json::parse(b"{}"), Some(Json::Object(vec![])));
    assert_eq!(Json::parse(b"[[],{}]"), Some(Json::Array(vec![Json::Array(vec![]), Json::Object(vec![])])));
    assert_eq!(
        Json::parse(b"{\"a\":[],\"b\":{}}"),
        Some(Json::Object(vec![
            ("a".to_string(), Json::Array(vec![])),
            ("b".to_string(), Json::Object(vec![])),
        ]))
    );
}

#[test]
fn empty_input_fails() {
    assert_eq!(Json::parse(b""), None);
    assert_eq!(Json::parse(b" \t\r\n"), None);
}

#[test]
fn unterminated_containers_fail() {
    assert_eq!(Json::parse(b"["), None);
    assert_eq!(Json::parse(b"[1"), None);
    assert_eq!(Json::parse(b"[1,"), None);
    assert_eq!(Json::parse(b"{"), None);
    assert_eq!(Json::parse(b"{\"a\""), None);
    assert_eq!(Json::parse(b"{\"a\":"), None);
    assert_eq!(Json::parse(b"{\"a\":1"), None);
    assert_eq!(Json::parse(b"[[]"), None);
}

#[test]
fn mismatched_brackets_fail() {
    assert_eq!(Json::parse(b"[}"), None);
    assert_eq!(Json::parse(b"{]"), None);
    assert_eq!(Json::parse(b"[1}"), None);
    assert_eq!(Json::parse(b"{\"a\":1]"), None);
    assert_eq!(Json::parse(b"]"), None);
    assert_eq!(Json::parse(b"}"), None);
}

#[test]
fn misplaced_separators_fail() {
    assert_eq!(Json::parse(b":"), None);
    assert_eq!(Json::parse(b","), None);
    assert_eq!(Json::parse(b"[1:2]"), None);
    assert_eq!(Json::parse(b"[1 2]"), None);
    assert_eq!(Json::parse(b"{\"a\",1}"), None);
    assert_eq!(Json::parse(b"{\"a\" 1}"), None);
    assert_eq!(Json::parse(b"{\"a\":1 \"b\":2}"), None);
    assert_eq!(Json::parse(b"{\"a\"::1}"), None);
    assert_eq!(Json::parse(b"{1:2}"), None);
    assert_eq!(Json::parse(b"{null:2}"), None);
    assert_eq!(Json::parse(b"{[]:2}"), None);
    assert_eq!(Json::parse(b"{\"a\":}"), None);
    assert_eq!(Json::parse(b"{\"a\"}"), None);
}

#[test]
fn leading_zeros_fail() {
    assert_eq!(Json::parse(b"01"), None);
    assert_eq!(Json::parse(b"-01"), None);
    assert_eq!(Json::parse(b"[00]"), None);
    assert_eq!(Json::parse(b"[1,012]"), None);
    assert_eq!(Json::parse(b"{\"a\":-00.5}"), None);
}

#[test]
fn incomplete_numbers_fail() {
    assert_eq!(Json::parse(b"-"), None);
    assert_eq!(Json::parse(b"1."), None);
    assert_eq!(Json::parse(b".1"), None);
    assert_eq!(Json::parse(b"1e"), None);
    assert_eq!(Json::parse(b"1e+"), None);
    assert_eq!(Json::parse(b"1e-"), None);
    assert_eq!(Json::parse(b"[-]"), None);
    assert_eq!(Json::parse(b"[1.]"), None);
    assert_eq!(Json::parse(b"[1.,2]"), None);
    assert_eq!(Json::parse(b"[1e]"), None);
    assert_eq!(Json::parse(b"[1E+]"), None);
    assert_eq!(Json::parse(b"+1"), None);
    assert_eq!(Json::parse(b"-a"), None);
    assert_eq!(Json::parse(b"1.e5"), None);
    assert_eq!(Json::parse(b"0x10"), None);
    assert_eq!(Json::parse(b"1.2.3"), None);
    assert_eq!(Json::parse(b"1e5e5"), None);
    assert_eq!(Json::parse(b"--1"), None);
}

#[test]
fn numbers_keep_their_literal() {
    assert_eq!(Json::parse(b"0"), Some(number("0")));
    assert_eq!(Json::parse(b"-0"), Some(number("-0")));
    assert_eq!(Json::parse(b"10"), Some(number("10")));
    assert_eq!(Json::parse(b"-12.5"), Some(number("-12.5")));
    assert_eq!(Json::parse(b"0.001"), Some(number("0.001")));
    assert_eq!(Json::parse(b"1e5"), Some(number("1e5")));
    assert_eq!(Json::parse(b"1E5"), Some(number("1E5")));
    assert_eq!(Json::parse(b"1e+5"), Some(number("1e+5")));
    assert_eq!(Json::parse(b"2.5e-3"), Some(number("2.5e-3")));
    assert_eq!(Json::parse(b"0e0"), Some(number("0e0")));
    assert_eq!(Json::parse(b" 123456789012345678901234567890 "), Some(number("123456789012345678901234567890")));
}

#[test]
fn numbers_read_as_floats() {
    assert_eq!(as_f64(&Json::parse(b"0").unwrap()), 0.0);
    assert_eq!(as_f64(&Json::parse(b"-12.5").unwrap()), -12.5);
    assert_eq!(as_f64(&Json::parse(b"1e5").unwrap()), 100000.0);
    assert_eq!(as_f64(&Json::parse(b"2.5e-3").unwrap()), 0.0025);
    assert_eq!(as_f64(&Json::parse(b"1E+2").unwrap()), 100.0);
    assert_eq!(as_f64(&Json::parse(b"123456789012345678901234567890").unwrap()), 1.2345678901234568e29);
    assert!(as_f64(&Json::parse(b"1e999").unwrap()).is_infinite());
}

#[test]
fn control_bytes_in_strings_fail() {
    for byte in 0u8..32 {
        let text = vec![b'"', b'a', byte, b'b', b'"'];
        assert_eq!(Json::parse(&text), None);
    }
    assert_eq!(Json::parse(b"\"a\nb\""), None);
    assert_eq!(Json::parse(b"\"\t\""), None);
    assert_eq!(Json::parse(b"[\"a\x00\"]"), None);
    assert_eq!(Json::parse(b"{\"a\x1f\":1}"), None);
    assert_eq!(Json::parse(b"\"a\x20b\x7f\""), Some(string("a b\u{7f}")));
}

#[test]
fn single_character_escapes_decode() {
    assert_eq!(Json::parse(b"\"\\\"\""), Some(string("\"")));
    assert_eq!(Json::parse(b"\"\\\\\""), Some(string("\\")));
    assert_eq!(Json::parse(b"\"\\b\""), Some(string("\u{8}")));
    assert_eq!(Json::parse(b"\"\\f\""), Some(string("\u{c}")));
    assert_eq!(Json::parse(b"\"\\n\""), Some(string("\n")));
    assert_eq!(Json::parse(b"\"\\r\""), Some(string("\r")));
    assert_eq!(Json::parse(b"\"\\t\""), Some(string("\t")));
    assert_eq!(Json::parse(b"\"a\\\"b\\\\c\\nd\""), Some(string("a\"b\\c\nd")));
}

#[test]
fn other_escapes_fail() {
    assert_eq!(Json::parse(b"\"\\/\""), None);
    assert_eq!(Json::parse(b"\"\\a\""), None);
    assert_eq!(Json::parse(b"\"\\0\""), None);
    assert_eq!(Json::parse(b"\"\\U0041\""), None);
    assert_eq!(Json::parse(b"\"\\'\""), None);
    assert_eq!(Json::parse(b"\"\\"), None);
    assert_eq!(Json::parse(b"\"\\\""), None);
}

#[test]
fn bad_unicode_escapes_fail() {
    assert_eq!(Json::parse(b"\"\\u\""), None);
    assert_eq!(Json::parse(b"\"\\u0\""), None);
    assert_eq!(Json::parse(b"\"\\u004\""), None);
    assert_eq!(Json::parse(b"\"\\u004g\""), None);
    assert_eq!(Json::parse(b"\"\\u 041\""), None);
    assert_eq!(Json::parse(b"\"\\u00"), None);
    assert_eq!(Json::parse(b"\"\\u0041"), None);
    assert_eq!(Json::parse(b"\"\\u-041\""), None);
}

#[test]
fn lone_surrogate_escapes_fail() {
    assert_eq!(Json::parse(b"\"\\ud800\""), None);
    assert_eq!(Json::parse(b"\"\\udfff\""), None);
    assert_eq!(Json::parse(b"\"\\ud83d\\ude00\""), None);
    assert_eq!(Json::parse(b"\"\\ud7ff\""), Some(string("\u{d7ff}")));
    assert_eq!(Json::parse(b"\"\\ue000\""), Some(string("\u{e000}")));
}

#[test]
fn unterminated_strings_fail() {
    assert_eq!(Json::parse(b"\""), None);
    assert_eq!(Json::parse(b"\"abc"), None);
    assert_eq!(Json::parse(b"[\"abc]"), None);
    assert_eq!(Json::parse(b"\"abc\\\""), None);
}

#[test]
fn raw_utf8_in_strings() {
    assert_eq!(Json::parse("\"h\u{e9}llo \u{1f600}\"".as_bytes()), Some(string("h\u{e9}llo \u{1f600}")));
    assert_eq!(Json::parse(b"\"\xff\""), None);
    assert_eq!(Json::parse(b"\"\xc3\""), None);
    assert_eq!(Json::parse(b"\"\xc0\x80\""), None);
    assert_eq!(Json::parse(b"\"\xed\xa0\x80\""), None);
    assert_eq!(Json::parse(b"\"\xc3\\u0041\""), None);
}

#[test]
fn empty_string_and_empty_key() {
    assert_eq!(Json::parse(b"\"\""), Some(string("")));
    assert_eq!(
        Json::parse(b"{\"\":\"\"}"),
        Some(Json::Object(vec![("".to_string(), string(""))]))
    );
}

#[test]
fn whitespace_between_tokens_is_ignored() {
    let compact = Json::parse(b"{\"a\":[1,2,{\"b\":null}],\"c\":\"x y\"}");
    assert!(compact.is_some());
    let spaced = Json::parse(
        b" \t{\r\n\"a\" :\t[ 1 ,\n2 , { \"b\" : null } ] , \"c\"\r:\n\"x y\" }\n\n",
    );
    assert_eq!(spaced, compact);
    assert_eq!(Json::parse(b"\n[\t]\r"), Some(Json::Array(vec![])));
    assert_eq!(Json::parse(b" null "), Some(Json::Null));
}

#[test]
fn whitespace_inside_tokens_matters() {
    assert_eq!(Json::parse(b"tr ue"), None);
    assert_eq!(Json::parse(b"1 2"), None);
    assert_eq!(Json::parse(b"12"), Some(number("12")));
    assert_eq!(Json::parse(b"- 1"), None);
    assert_eq!(Json::parse(b"\" a \""), Some(string(" a ")));
    assert_eq!(Json::parse(b"\"a\""), Some(string("a")));
}

#[test]
fn other_whitespace_is_no_whitespace() {
    assert_eq!(Json::parse(b"\x0b1"), None);
    assert_eq!(Json::parse(b"\x0c1"), None);
    assert_eq!(Json::parse("\u{a0}1".as_bytes()), None);
    assert_eq!(Json::parse(b"\xef\xbb\xbf1"), None);
}

#[test]
fn keywords_must_be_exact() {
    assert_eq!(Json::parse(b"tru"), None);
    assert_eq!(Json::parse(b"True"), None);
    assert_eq!(Json::parse(b"nul"), None);
    assert_eq!(Json::parse(b"n"), None);
    assert_eq!(Json::parse(b"fals"), None);
    assert_eq!(Json::parse(b"falsy"), None);
    assert_eq!(Json::parse(b"nulll"), None);
    assert_eq!(Json::parse(b"truefalse"), None);
    assert_eq!(Json::parse(b"[truefalse]"), None);
    assert_eq!(Json::parse(b"[true,false]"), Some(Json::Array(vec![Json::Boolean(true), Json::Boolean(false)])));
}

#[test]
fn members_are_ordered_by_key() {
    let parsed = Json::parse(b"{\"b\":1,\"a\":2,\"c\":3,\"aa\":4,\"\":5,\"B\":6}").unwrap();
    let keys: Vec<String> = match parsed {
        Json::Object(members) => members.into_iter().map(|member| member.0).collect(),
        _ => panic!("not an object"),
    };
    assert_eq!(keys, vec!["", "B", "a", "aa", "b", "c"]);
}

#[test]
fn members_are_ordered_as_their_bytes() {
    let parsed = Json::parse("{\"\u{e9}\":1,\"z\":2,\"\u{1f600}\":3,\"\\uffff\":4}".as_bytes()).unwrap();
    let keys: Vec<String> = match parsed {
        Json::Object(members) => members.into_iter().map(|member| member.0).collect(),
        _ => panic!("not an object"),
    };
    let mut sorted = keys.clone();
    sorted.sort();
    assert_eq!(keys, sorted);
    assert_eq!(keys, vec!["z", "\u{e9}", "\u{ffff}", "\u{1f600}"]);
}

#[test]
fn key_order_in_the_text_does_not_matter() {
    assert_eq!(
        Json::parse(b"{\"a\":1,\"b\":{\"y\":[],\"x\":null}}"),
        Json::parse(b"{\"b\":{\"x\":null,\"y\":[]},\"a\":1}")
    );
}

#[test]
fn nested_containers() {
    assert_eq!(
        Json::parse(b"[[1,[2,[3]]],{\"k\":{\"k\":[{}]}}]"),
        Some(Json::Array(vec![
            Json::Array(vec![
                number("1"),
                Json::Array(vec![number("2"), Json::Array(vec![number("3")])]),
            ]),
            Json::Object(vec![(
                "k".to_string(),
                Json::Object(vec![(
                    "k".to_string(),
                    Json::Array(vec![Json::Object(vec![])]),
                )]),
            )]),
        ]))
    );
}

#[test]
fn deep_nesting_parses() {
    let depth = 2000;
    let mut text = Vec::new();
    for _ in 0..depth {
        text.push(b'[');
    }
    for _ in 0..depth {
        text.push(b']');
    }
    let mut json = Json::parse(&text).unwrap();
    let mut seen = 0;
    loop {
        match json {
            Json::Array(mut items) => {
                seen += 1;
                match items.pop() {
                    Some(inner) => {
                        assert!(items.is_empty());
                        json = inner;
                    },
                    None => break,
                }
            },
            _ => panic!("not an array"),
        }
    }
    assert_eq!(seen, depth);
    text.pop();
    assert_eq!(Json::parse(&text), None);
}

#[test]
fn strings_as_values_and_keys() {
    assert_eq!(
        Json::parse(b"{\"k\\n\":\"v\\t\"}"),
        Some(Json::Object(vec![("k\n".to_string(), string("v\t"))]))
    );
    assert_eq!(
        Json::parse(b"[\"a\",\"b\"]"),
        Some(Json::Array(vec![string("a"), string("b")]))
    );
}
