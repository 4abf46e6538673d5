use json_tree::keys::{compare_keys, KeyOrder};
use json_tree::members::{find_member, insert_member};
use json_tree::utf8::push_code_point;
use json_tree::value::{get_map, get_vec};
use json_tree::Json;

fn compare(a: &str, b: &str) -> KeyOrder {
    compare_keys(&a.to_string(), &b.to_string())
}

#[test]
fn keys_compare_as_their_bytes() {
    assert_eq!(compare("a", "b"), KeyOrder::Less);
    assert_eq!(compare("b", "a"), KeyOrder::Greater);
    assert_eq!(compare("a", "a"), KeyOrder::Equal);
    assert_eq!(compare("", ""), KeyOrder::Equal);
    assert_eq!(compare("", "a"), KeyOrder::Less);
    assert_eq!(compare("a", ""), KeyOrder::Greater);
    assert_eq!(compare("a", "ab"), KeyOrder::Less);
    assert_eq!(compare("ab", "a"), KeyOrder::Greater);
    assert_eq!(compare("B", "a"), KeyOrder::Less);
    assert_eq!(compare("z", "\u{e9}"), KeyOrder::Less);
    assert_eq!(compare("\u{ffff}", "\u{10000}"), KeyOrder::Less);
    assert_eq!(compare("abc", "abd"), KeyOrder::Less);
}

#[test]
fn keys_compare_as_strings_do() {
    let keys = ["", "a", "A", "ab", "b", "\u{e9}", "\u{20ac}", "\u{1f600}", "z", "aa", "\u{7f}"];
    for a in keys {
        for b in keys {
            let expected = match a.cmp(b) {
                std::cmp::Ordering::Less => KeyOrder::Less,
                std::cmp::Ordering::Equal => KeyOrder::Equal,
                std::cmp::Ordering::Greater => KeyOrder::Greater,
            };
            assert_eq!(compare(a, b), expected);
        }
    }
}

fn some_members() -> Vec<(String, Json)> {
    vec![
        ("b".to_string(), Json::Null),
        ("d".to_string(), Json::Boolean(true)),
        ("f".to_string(), Json::Boolean(false)),
    ]
}

#[test]
fn find_member_gives_the_place_of_a_new_key() {
    let members = some_members();
    assert_eq!(find_member(&members, &"a".to_string()), Some(0));
    assert_eq!(find_member(&members, &"c".to_string()), Some(1));
    assert_eq!(find_member(&members, &"e".to_string()), Some(2));
    assert_eq!(find_member(&members, &"g".to_string()), Some(3));
    assert_eq!(find_member(&members, &"".to_string()), Some(0));
    assert_eq!(find_member(&Vec::new(), &"a".to_string()), Some(0));
}

#[test]
fn find_member_gives_none_for_a_key_that_is_there() {
    let members = some_members();
    assert_eq!(find_member(&members, &"b".to_string()), None);
    assert_eq!(find_member(&members, &"d".to_string()), None);
    assert_eq!(find_member(&members, &"f".to_string()), None);
}

#[test]
fn insert_member_keeps_the_order() {
    let mut members = Vec::new();
    assert!(insert_member(&mut members, "m".to_string(), Json::Null));
    assert!(insert_member(&mut members, "a".to_string(), Json::Boolean(true)));
    assert!(insert_member(&mut members, "z".to_string(), Json::Boolean(false)));
    assert!(insert_member(&mut members, "n".to_string(), Json::Array(vec![])));
    assert_eq!(
        members,
        vec![
            ("a".to_string(), Json::Boolean(true)),
            ("m".to_string(), Json::Null),
            ("n".to_string(), Json::Array(vec![])),
            ("z".to_string(), Json::Boolean(false)),
        ]
    );
}

#[test]
fn insert_member_refuses_a_key_that_is_there() {
    let mut members = some_members();
    assert!(!insert_member(&mut members, "d".to_string(), Json::Null));
    assert_eq!(members, some_members());
    assert!(!insert_member(&mut members, "b".to_string(), Json::Null));
    assert_eq!(members, some_members());
}

#[test]
fn get_vec_hands_out_the_items() {
    let mut array = Json::Array(vec![Json::Null]);
    assert_eq!(get_vec(&mut array).len(), 1);
    get_vec(&mut array).push(Json::Boolean(true));
    assert_eq!(array, Json::Array(vec![Json::Null, Json::Boolean(true)]));
}

#[test]
fn get_map_hands_out_the_members() {
    let mut object = Json::Object(vec![]);
    assert!(get_map(&mut object).is_empty());
    assert!(insert_member(get_map(&mut object), "k".to_string(), Json::Null));
    assert_eq!(object, Json::Object(vec![("k".to_string(), Json::Null)]));
}

#[test]
fn push_code_point_appends_the_utf8_bytes() {
    let mut out = vec![b'x'];
    push_code_point(&mut out, 0x41);
    assert_eq!(out, b"xA");
    push_code_point(&mut out, 0xe9);
    assert_eq!(out, b"xA\xc3\xa9");
    push_code_point(&mut out, 0x20ac);
    assert_eq!(out, b"xA\xc3\xa9\xe2\x82\xac");
}

#[test]
fn push_code_point_agrees_with_char_encoding() {
    for code_point in [0u16, 0x7f, 0x80, 0x7ff, 0x800, 0xd7ff, 0xe000, 0xfffd, 0xffff] {
        let mut out = Vec::new();
        push_code_point(&mut out, code_point);
        let mut buffer = [0u8; 4];
        let expected = char::from_u32(u32::from(code_point)).unwrap().encode_utf8(&mut buffer);
        assert_eq!(out, expected.as_bytes());
    }
}

#[test]
fn push_code_point_of_a_surrogate_is_no_utf8() {
    let mut out = Vec::new();
    push_code_point(&mut out, 0xd800);
    assert_eq!(out, b"\xed\xa0\x80");
    assert!(String::from_utf8(out).is_err());
}
