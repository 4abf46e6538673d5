use json_tree::lexer::peek_token;
use json_tree::{peek_keyword, peek_number, peek_string, tokenize, Token};

fn number(text: &str) -> Token {
    Token::Number(text.to_string())
}

fn string(text: &str) -> Token {
    Token::String(text.to_string())
}

#[test]
fn peek_keyword_finds_the_keyword() {
    assert_eq!(peek_keyword(b"true", b"true"), 4);
    assert_eq!(peek_keyword(b"true,false", b"true"), 4);
    assert_eq!(peek_keyword(b"false]", b"false"), 5);
    assert_eq!(peek_keyword(b"null", b"null"), 4);
    assert_eq!(peek_keyword(b"nullx", b"null"), 4);
}

#[test]
fn peek_keyword_misses() {
    assert_eq!(peek_keyword(b"tru", b"true"), 0);
    assert_eq!(peek_keyword(b"", b"true"), 0);
    assert_eq!(peek_keyword(b"trie", b"true"), 0);
    assert_eq!(peek_keyword(b" true", b"true"), 0);
    assert_eq!(peek_keyword(b"True", b"true"), 0);
    assert_eq!(peek_keyword(b"false", b"true"), 0);
}

#[test]
fn peek_keyword_with_an_empty_keyword() {
    assert_eq!(peek_keyword(b"abc", b""), 0);
    assert_eq!(peek_keyword(b"", b""), 0);
}

#[test]
fn peek_number_takes_the_longest_literal() {
    assert_eq!(peek_number(b"0"), (1, "0".to_string()));
    assert_eq!(peek_number(b"-0"), (2, "-0".to_string()));
    assert_eq!(peek_number(b"123,"), (3, "123".to_string()));
    assert_eq!(peek_number(b"-12.50]"), (6, "-12.50".to_string()));
    assert_eq!(peek_number(b"1e5 "), (3, "1e5".to_string()));
    assert_eq!(peek_number(b"1E-05}"), (5, "1E-05".to_string()));
    assert_eq!(peek_number(b"9.75e+2x"), (7, "9.75e+2".to_string()));
    assert_eq!(peek_number(b"0.0e0"), (5, "0.0e0".to_string()));
}

#[test]
fn peek_number_stops_behind_a_leading_zero() {
    assert_eq!(peek_number(b"01"), (1, "0".to_string()));
    assert_eq!(peek_number(b"-01"), (2, "-0".to_string()));
    assert_eq!(peek_number(b"00.5"), (1, "0".to_string()));
}

#[test]
fn peek_number_stops_at_what_does_not_belong() {
    assert_eq!(peek_number(b"1-2"), (1, "1".to_string()));
    assert_eq!(peek_number(b"1+2"), (1, "1".to_string()));
    assert_eq!(peek_number(b"1.5.2"), (3, "1.5".to_string()));
    assert_eq!(peek_number(b"1e5e2"), (3, "1e5".to_string()));
    assert_eq!(peek_number(b"1e5.2"), (3, "1e5".to_string()));
    assert_eq!(peek_number(b"12a"), (2, "12".to_string()));
}

#[test]
fn peek_number_rejects_what_lacks_digits() {
    assert_eq!(peek_number(b""), (0, String::new()));
    assert_eq!(peek_number(b"-"), (0, String::new()));
    assert_eq!(peek_number(b"-x"), (0, String::new()));
    assert_eq!(peek_number(b"1."), (0, String::new()));
    assert_eq!(peek_number(b"1.x"), (0, String::new()));
    assert_eq!(peek_number(b"1.e5"), (0, String::new()));
    assert_eq!(peek_number(b".1"), (0, String::new()));
    assert_eq!(peek_number(b"1e"), (0, String::new()));
    assert_eq!(peek_number(b"1e+"), (0, String::new()));
    assert_eq!(peek_number(b"1e-"), (0, String::new()));
    assert_eq!(peek_number(b"1e+x"), (0, String::new()));
    assert_eq!(peek_number(b"0e"), (0, String::new()));
    assert_eq!(peek_number(b"0."), (0, String::new()));
    assert_eq!(peek_number(b"+1"), (0, String::new()));
    assert_eq!(peek_number(b"a"), (0, String::new()));
}

#[test]
fn peek_string_decodes_the_literal() {
    assert_eq!(peek_string(b"\"\""), (2, String::new()));
    assert_eq!(peek_string(b"\"abc\""), (5, "abc".to_string()));
    assert_eq!(peek_string(b"\"abc\":1"), (5, "abc".to_string()));
    assert_eq!(peek_string(b"\"a\\nb\" "), (6, "a\nb".to_string()));
    assert_eq!(peek_string(b"\"\\\"\"x"), (4, "\"".to_string()));
    assert_eq!(peek_string(b"\"\\u0041\\u00e9\""), (14, "A\u{e9}".to_string()));
    assert_eq!(peek_string(b"\"\\u00E9\\uABCD\""), (14, "\u{e9}\u{abcd}".to_string()));
    assert_eq!(peek_string("\"\u{20ac}\"".as_bytes()), (5, "\u{20ac}".to_string()));
}

#[test]
fn peek_string_rejects_bad_literals() {
    assert_eq!(peek_string(b""), (0, String::new()));
    assert_eq!(peek_string(b"abc"), (0, String::new()));
    assert_eq!(peek_string(b"\""), (0, String::new()));
    assert_eq!(peek_string(b"\"abc"), (0, String::new()));
    assert_eq!(peek_string(b"\"a\nb\""), (0, String::new()));
    assert_eq!(peek_string(b"\"\x1f\""), (0, String::new()));
    assert_eq!(peek_string(b"\"\\x\""), (0, String::new()));
    assert_eq!(peek_string(b"\"\\"), (0, String::new()));
    assert_eq!(peek_string(b"\"\\u12\""), (0, String::new()));
    assert_eq!(peek_string(b"\"\\u12G4\""), (0, String::new()));
    assert_eq!(peek_string(b"\"\\ud800\""), (0, String::new()));
    assert_eq!(peek_string(b"\"\xff\""), (0, String::new()));
    assert_eq!(peek_string(b"\"\xe2\x82\""), (0, String::new()));
}

#[test]
fn peek_string_turns_bytes_into_text() {
    let (len, text) = peek_string(b"\"\xc3\xa9\"");
    assert_eq!(len, 4);
    assert_eq!(text.chars().count(), 1);
    assert_eq!(text.chars().next(), Some('\u{e9}'));
    assert_eq!(text.as_bytes(), b"\xc3\xa9");
}

#[test]
fn peek_token_finds_each_kind() {
    assert_eq!(peek_token(b"[1]"), Some((Token::ArrayBegin, 1)));
    assert_eq!(peek_token(b"]"), Some((Token::ArrayEnd, 1)));
    assert_eq!(peek_token(b"{}"), Some((Token::ObjectBegin, 1)));
    assert_eq!(peek_token(b"}"), Some((Token::ObjectEnd, 1)));
    assert_eq!(peek_token(b":"), Some((Token::Colon, 1)));
    assert_eq!(peek_token(b","), Some((Token::Comma, 1)));
    assert_eq!(peek_token(b"true"), Some((Token::Boolean(true), 4)));
    assert_eq!(peek_token(b"false"), Some((Token::Boolean(false), 5)));
    assert_eq!(peek_token(b"null"), Some((Token::Null, 4)));
    assert_eq!(peek_token(b"-1.5,"), Some((number("-1.5"), 4)));
    assert_eq!(peek_token(b"\"a\","), Some((string("a"), 3)));
    assert_eq!(peek_token(b""), None);
    assert_eq!(peek_token(b"x"), None);
    assert_eq!(peek_token(b" 1"), None);
    assert_eq!(peek_token(b".5"), None);
    assert_eq!(peek_token(b"nul"), None);
}

#[test]
fn tokenize_gives_the_tokens_in_order() {
    assert_eq!(
        tokenize(b"{\"a\": [1, true, null], \"b\": -2.5e3}"),
        Some(vec![
            Token::ObjectBegin,
            string("a"),
            Token::Colon,
            Token::ArrayBegin,
            number("1"),
            Token::Comma,
            Token::Boolean(true),
            Token::Comma,
            Token::Null,
            Token::ArrayEnd,
            Token::Comma,
            string("b"),
            Token::Colon,
            number("-2.5e3"),
            Token::ObjectEnd,
        ])
    );
}

#[test]
fn tokenize_knows_no_grammar() {
    assert_eq!(
        tokenize(b"]:,[}{"),
        Some(vec![
            Token::ArrayEnd,
            Token::Colon,
            Token::Comma,
            Token::ArrayBegin,
            Token::ObjectEnd,
            Token::ObjectBegin,
        ])
    );
    assert_eq!(tokenize(b"01"), Some(vec![number("0"), number("1")]));
    assert_eq!(tokenize(b"-01"), Some(vec![number("-0"), number("1")]));
    assert_eq!(
        tokenize(b"truefalsenull"),
        Some(vec![Token::Boolean(true), Token::Boolean(false), Token::Null])
    );
    assert_eq!(tokenize(b"1-2"), Some(vec![number("1"), number("-2")]));
    assert_eq!(tokenize(b"\"a\"\"b\""), Some(vec![string("a"), string("b")]));
}

#[test]
fn tokenize_skips_whitespace() {
    assert_eq!(tokenize(b""), Some(vec![]));
    assert_eq!(tokenize(b" \t\r\n"), Some(vec![]));
    assert_eq!(tokenize(b" 1 \n 2\t"), Some(vec![number("1"), number("2")]));
    assert_eq!(tokenize(b"[ ]"), tokenize(b"[]"));
}

#[test]
fn tokenize_fails_on_the_first_bad_byte() {
    assert_eq!(tokenize(b"[1, x]"), None);
    assert_eq!(tokenize(b"[1, tru]"), None);
    assert_eq!(tokenize(b"1."), None);
    assert_eq!(tokenize(b".1"), None);
    assert_eq!(tokenize(b"-"), None);
    assert_eq!(tokenize(b"1e"), None);
    assert_eq!(tokenize(b"1e+"), None);
    assert_eq!(tokenize(b"\"abc"), None);
    assert_eq!(tokenize(b"'a'"), None);
    assert_eq!(tokenize(b"\x00"), None);
    assert_eq!(tokenize(b"\x7f"), None);
    assert_eq!(tokenize(b"\xc3\xa9"), None);
    assert_eq!(tokenize(b"[1] // note"), None);
}
