use json_tree::Json;

fn write_string(text: &str, out: &mut Vec<u8>) {
    out.push(b'"');
    for &byte in text.as_bytes() {
        match byte {
            b'"' => out.extend_from_slice(b"\\\""),
            b'\\' => out.extend_from_slice(b"\\\\"),
            0..=31 => out.extend_from_slice(format!("\\u{:04x}", byte).as_bytes()),
            _ => out.push(byte),
        }
    }
    out.push(b'"');
}

fn write(json: &Json, out: &mut Vec<u8>) {
    match json {
        Json::Null => out.extend_from_slice(b"null"),
        Json::Boolean(true) => out.extend_from_slice(b"true"),
        Json::Boolean(false) => out.extend_from_slice(b"false"),
        Json::Number(text) => out.extend_from_slice(text.as_bytes()),
        Json::String(text) => write_string(text, out),
        Json::Array(items) => {
            out.push(b'[');
            for (i, item) in items.iter().enumerate() {
                if i > 0 {
                    out.push(b',');
                }
                write(item, out);
            }
            out.push(b']');
        },
        Json::Object(members) => {
            out.push(b'{');
            for (i, member) in members.iter().enumerate() {
                if i > 0 {
                    out.push(b',');
                }
                write_string(&member.0, out);
                out.push(b':');
                write(&member.1, out);
            }
            out.push(b'}');
        },
    }
}

fn written(json: &Json) -> Vec<u8> {
    let mut out = Vec::new();
    write(json, &mut out);
    out
}

fn check(text: &[u8]) {
    let first = Json::parse(text).unwrap();
    let second = Json::parse(&written(&first)).unwrap();
    assert_eq!(second, first);
}

#[test]
fn literals_survive_a_round_trip() {
    check(b"null");
    check(b"true");
    check(b"false");
    check(b"0");
    check(b"-1.25e-7");
    check(b"\"\"");
    check(b"\"plain\"");
}

#[test]
fn strings_with_escapes_survive_a_round_trip() {
    check(b"\"a\\\"b\\\\c\\b\\f\\n\\r\\t\"");
    check(b"\"\\u0000\\u001f\\u0041\\u00e9\\u20ac\\uffff\"");
    check("\"\u{e9}\u{20ac}\u{1f600}\"".as_bytes());
    check(b"{\"k\\n\\u0001\":\"v\\t\"}");
}

#[test]
fn containers_survive_a_round_trip() {
    check(b"[]");
    check(b"{}");
    check(b"[1,[2,[3,[]]],{},{\"a\":{\"b\":[null]}}]");
    check(b" { \"b\" : [ 1 , 2 ] , \"a\" : { \"z\" : true , \"y\" : false } } ");
}

#[test]
fn the_written_text_is_compact_and_ordered() {
    let parsed = Json::parse(b" { \"b\" : [ 1 , 2.50 ] , \"a\" : \"x\\ty\" } ").unwrap();
    assert_eq!(written(&parsed), b"{\"a\":\"x\\u0009y\",\"b\":[1,2.50]}");
}
