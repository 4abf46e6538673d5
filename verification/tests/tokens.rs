use json_tree::{parse, Json, Token};

fn number(text: &str) -> Token {
    Token::Number(text.to_string())
}

fn string(text: &str) -> Token {
    Token::String(text.to_string())
}

#[test]
fn parse_of_one_literal() {
    assert_eq!(parse(vec![Token::Null]), Some(Json::Null));
    assert_eq!(parse(vec![Token::Boolean(true)]), Some(Json::Boolean(true)));
    assert_eq!(parse(vec![number("1.5")]), Some(Json::Number("1.5".to_string())));
    assert_eq!(parse(vec![string("a")]), Some(Json::String("a".to_string())));
}

#[test]
fn parse_of_no_token_fails() {
    assert_eq!(parse(vec![]), None);
}

#[test]
fn parse_of_an_array() {
    assert_eq!(
        parse(vec![
            Token::ArrayBegin,
            number("1"),
            Token::Comma,
            Token::ArrayBegin,
            Token::ArrayEnd,
            Token::Comma,
            string("x"),
            Token::ArrayEnd,
        ]),
        Some(Json::Array(vec![
            Json::Number("1".to_string()),
            Json::Array(vec![]),
            Json::String("x".to_string()),
        ]))
    );
}

#[test]
fn parse_of_an_object_orders_the_members() {
    assert_eq!(
        parse(vec![
            Token::ObjectBegin,
            string("b"),
            Token::Colon,
            Token::Null,
            Token::Comma,
            string("a"),
            Token::Colon,
            Token::ObjectBegin,
            Token::ObjectEnd,
            Token::ObjectEnd,
        ]),
        Some(Json::Object(vec![
            ("a".to_string(), Json::Object(vec![])),
            ("b".to_string(), Json::Null),
        ]))
    );
}

#[test]
fn parse_fails_on_a_repeated_key() {
    assert_eq!(
        parse(vec![
            Token::ObjectBegin,
            string("a"),
            Token::Colon,
            Token::Null,
            Token::Comma,
            string("a"),
            Token::Colon,
            Token::Null,
            Token::ObjectEnd,
        ]),
        None
    );
    assert_eq!(
        parse(vec![
            Token::ObjectBegin,
            string("a"),
            Token::Colon,
            Token::Null,
            Token::Comma,
            string("a"),
            Token::Colon,
            Token::ArrayBegin,
            Token::ArrayEnd,
            Token::ObjectEnd,
        ]),
        None
    );
}

#[test]
fn parse_fails_on_tokens_behind_the_root() {
    assert_eq!(parse(vec![Token::Null, Token::Null]), None);
    assert_eq!(parse(vec![Token::ArrayBegin, Token::ArrayEnd, Token::Comma]), None);
    assert_eq!(parse(vec![number("0"), number("1")]), None);
}

#[test]
fn parse_fails_on_a_comma_before_the_end() {
    assert_eq!(
        parse(vec![Token::ArrayBegin, number("1"), Token::Comma, Token::ArrayEnd]),
        None
    );
    assert_eq!(
        parse(vec![
            Token::ObjectBegin,
            string("a"),
            Token::Colon,
            number("1"),
            Token::Comma,
            Token::ObjectEnd,
        ]),
        None
    );
}

#[test]
fn parse_fails_on_what_is_left_open() {
    assert_eq!(parse(vec![Token::ArrayBegin]), None);
    assert_eq!(parse(vec![Token::ObjectBegin, string("a")]), None);
    assert_eq!(parse(vec![Token::ObjectBegin, string("a"), Token::Colon]), None);
    assert_eq!(parse(vec![Token::ArrayBegin, Token::ObjectEnd]), None);
    assert_eq!(parse(vec![Token::ArrayEnd]), None);
    assert_eq!(parse(vec![Token::Colon]), None);
    assert_eq!(parse(vec![Token::Comma]), None);
}

#[test]
fn parse_keeps_a_number_as_it_is_handed_in() {
    assert_eq!(parse(vec![number("007")]), Some(Json::Number("007".to_string())));
}
