use jsonparse::{ObjectMap, Parser, Value};

fn parse(text: &str) -> Option<Value> {
    Parser::new(text).parse()
}

fn num(i: i32) -> Value {
    Value::Int(i)
}

fn string(s: &str) -> Value {
    Value::JsonString(s.to_string())
}

fn float(s: &str) -> Value {
    Value::Float(s.to_string())
}

fn object(pairs: Vec<(&str, Value)>) -> Value {
    let mut members = ObjectMap::new();
    for (key, value) in pairs {
        members.insert(key.to_string(), value);
    }
    Value::Object(members)
}

#[test]
fn scalar_root_is_parsed() {
    assert_eq!(parse("42"), Some(num(42)));
}

#[test]
fn string_root_is_parsed() {
    assert_eq!(parse("\"42\""), Some(string("42")));
}

#[test]
fn duplicate_keys_keep_the_last_value() {
    let value = parse(r#"{"a":1,"a":2}"#).unwrap();
    assert_eq!(value.get_map("a"), Some(&num(2)));
    match &value {
        Value::Object(members) => assert_eq!(members.len(), 1),
        other => panic!("not an object: {:?}", other),
    }
    assert_eq!(value, object(vec![("a", num(2))]));
}

#[test]
fn empty_object_is_parsed() {
    assert_eq!(parse("{}"), Some(Value::Object(ObjectMap::new())));
}

#[test]
fn empty_array_is_parsed() {
    assert_eq!(parse("[]"), Some(Value::Array(vec![])));
}

#[test]
fn empty_containers_with_inner_whitespace() {
    assert_eq!(parse("[ \n ]"), Some(Value::Array(vec![])));
    assert_eq!(parse("{ \t }"), Some(Value::Object(ObjectMap::new())));
}

#[test]
fn escaped_quote_stays_in_the_string() {
    let value = parse(r#"{"k":"a\"b"}"#).unwrap();
    assert_eq!(value.get_map("k"), Some(&string("a\"b")));
}

#[test]
fn trailing_comma_in_array_is_rejected() {
    assert_eq!(parse("[1,2,]"), None);
}

#[test]
fn trailing_comma_in_object_is_rejected() {
    assert_eq!(parse(r#"{"a":1,}"#), None);
}

#[test]
fn lone_comma_in_containers_is_rejected() {
    assert_eq!(parse("[,]"), None);
    assert_eq!(parse("{,}"), None);
}

#[test]
fn array_keeps_the_order_of_its_elements() {
    assert_eq!(
        parse(r#"[2, 3, "noooo"]"#),
        Some(Value::Array(vec![num(2), num(3), string("noooo")]))
    );
}

#[test]
fn nested_containers_are_parsed() {
    let value = parse(r#"{"a":[1,{"b":[]},[[2]]],"c":{"d":{}}}"#).unwrap();
    let expected = object(vec![
        (
            "a",
            Value::Array(vec![
                num(1),
                object(vec![("b", Value::Array(vec![]))]),
                Value::Array(vec![Value::Array(vec![num(2)])]),
            ]),
        ),
        ("c", object(vec![("d", Value::Object(ObjectMap::new()))])),
    ]);
    assert_eq!(value, expected);
}

#[test]
fn literals_are_parsed() {
    assert_eq!(parse("true"), Some(Value::Bool(true)));
    assert_eq!(parse("false"), Some(Value::Bool(false)));
    assert_eq!(parse("null"), Some(Value::Null));
}

#[test]
fn misspelt_literals_are_rejected() {
    assert_eq!(parse("tru"), None);
    assert_eq!(parse("trux"), None);
    assert_eq!(parse("fals"), None);
    assert_eq!(parse("falze"), None);
    assert_eq!(parse("nul"), None);
    assert_eq!(parse("nill"), None);
    assert_eq!(parse("[nul]"), None);
}

#[test]
fn integers_up_to_the_largest_are_integers() {
    assert_eq!(parse("0"), Some(num(0)));
    assert_eq!(parse("007"), Some(num(7)));
    assert_eq!(parse("2147483647"), Some(num(i32::MAX)));
    assert_eq!(parse("0000000000002147483647"), Some(num(i32::MAX)));
}

#[test]
fn numbers_that_are_no_integer_are_floats() {
    assert_eq!(parse("2147483648"), Some(float("2147483648")));
    assert_eq!(parse("99999999999999999999"), Some(float("99999999999999999999")));
    assert_eq!(parse("32.12345"), Some(float("32.12345")));
    assert_eq!(parse("1."), Some(float("1.")));
    assert_eq!(parse("0.5"), Some(float("0.5")));
}

#[test]
fn numbers_with_two_dots_are_rejected() {
    assert_eq!(parse("1.2.3"), None);
    assert_eq!(parse("1.."), None);
    assert_eq!(parse("[1, 2..5]"), None);
}

#[test]
fn signs_and_exponents_are_not_numbers() {
    assert_eq!(parse("-1"), None);
    assert_eq!(parse("+1"), None);
    assert_eq!(parse(".5"), None);
    assert_eq!(parse("[1e5]"), None);
}

#[test]
fn backslash_takes_the_next_character_as_it_is() {
    assert_eq!(parse(r#""a\nb""#), Some(string("anb")));
    assert_eq!(parse(r#""a\\b""#), Some(string("a\\b")));
    assert_eq!(parse(r#""\u0041""#), Some(string("u0041")));
    assert_eq!(parse(r#""\"""#), Some(string("\"")));
}

#[test]
fn unclosed_string_ends_with_the_text() {
    assert_eq!(parse("\"abc"), Some(string("abc")));
    assert_eq!(parse("\"abc\\"), Some(string("abc")));
    assert_eq!(parse("\""), Some(string("")));
}

#[test]
fn unclosed_string_swallows_the_rest_of_a_container() {
    assert_eq!(parse("[\"abc]"), None);
}

#[test]
fn whitespace_between_tokens_is_skipped() {
    assert_eq!(
        parse(" \t\r\n[ 1 ,\n 2 ] "),
        Some(Value::Array(vec![num(1), num(2)]))
    );
    assert_eq!(
        parse("\u{a0}[\u{3000}1\u{2028},\u{85}2\u{1680}]"),
        Some(Value::Array(vec![num(1), num(2)]))
    );
}

#[test]
fn text_without_a_token_has_no_value() {
    assert_eq!(parse(""), None);
    assert_eq!(parse("   \n"), None);
}

#[test]
fn unknown_characters_are_rejected() {
    assert_eq!(parse("@"), None);
    assert_eq!(parse("[1, @]"), None);
    assert_eq!(parse("'a'"), None);
}

#[test]
fn punctuation_alone_is_no_value() {
    assert_eq!(parse(","), None);
    assert_eq!(parse(":"), None);
    assert_eq!(parse("}"), None);
    assert_eq!(parse("]"), None);
}

#[test]
fn unclosed_containers_are_rejected() {
    assert_eq!(parse("["), None);
    assert_eq!(parse("[1"), None);
    assert_eq!(parse("[1,"), None);
    assert_eq!(parse("{"), None);
    assert_eq!(parse(r#"{"a""#), None);
    assert_eq!(parse(r#"{"a":"#), None);
    assert_eq!(parse(r#"{"a":1"#), None);
    assert_eq!(parse(r#"{"a":1,"#), None);
}

#[test]
fn missing_separators_are_rejected() {
    assert_eq!(parse("[1 2]"), None);
    assert_eq!(parse(r#"{"a" 1}"#), None);
    assert_eq!(parse(r#"{"a":1 "b":2}"#), None);
    assert_eq!(parse(r#"{"a":1:"b"}"#), None);
}

#[test]
fn object_keys_must_be_strings() {
    assert_eq!(parse("{1:2}"), None);
    assert_eq!(parse("{true:2}"), None);
    assert_eq!(parse(r#"{"a":1,2:3}"#), None);
}

#[test]
fn member_without_a_value_is_rejected() {
    assert_eq!(parse(r#"{"a":}"#), None);
    assert_eq!(parse(r#"{"a":1,"b":}"#), None);
}

#[test]
fn mismatched_closers_are_rejected() {
    assert_eq!(parse("[1}"), None);
    assert_eq!(parse(r#"{"a":1]"#), None);
}

#[test]
fn failure_inside_unwinds_the_whole_parse() {
    assert_eq!(parse(r#"{"a":[1,{"b":tru}]}"#), None);
    assert_eq!(parse("[[[1,]]]"), None);
}

#[test]
fn what_follows_the_value_is_not_read() {
    assert_eq!(parse("42 43"), Some(num(42)));
    assert_eq!(parse("[1] @@@"), Some(Value::Array(vec![num(1)])));
    assert_eq!(parse("truex"), Some(Value::Bool(true)));
    assert_eq!(parse("{}}"), Some(Value::Object(ObjectMap::new())));
}

#[test]
fn number_ends_where_digits_and_dots_end() {
    assert_eq!(parse("12a"), Some(num(12)));
    assert_eq!(
        parse("[1true]"),
        None
    );
}

#[test]
fn sample_document_is_parsed() {
    let text = r#"
    {
        "no": false,
        "inner_obj": {
            "inner_field": null,
            "inner_array_of_objects": [
                {
                    "in_obj_1_a": true,
                    "in_obj_1_b": 32.12345
                },
                {
                    "in_obj_2_a": [2,[3]]
                }
            ]
        },
        "some_number": 32,
        "array_thingy": [
            2, 3, "noooo"
        ],
        "a_string": "my_string",
        "test_string": "no"
    }
    "#;
    let value = parse(text).unwrap();
    let expected = object(vec![
        ("no", Value::Bool(false)),
        (
            "inner_obj",
            object(vec![
                ("inner_field", Value::Null),
                (
                    "inner_array_of_objects",
                    Value::Array(vec![
                        object(vec![
                            ("in_obj_1_a", Value::Bool(true)),
                            ("in_obj_1_b", float("32.12345")),
                        ]),
                        object(vec![(
                            "in_obj_2_a",
                            Value::Array(vec![num(2), Value::Array(vec![num(3)])]),
                        )]),
                    ]),
                ),
            ]),
        ),
        ("some_number", num(32)),
        (
            "array_thingy",
            Value::Array(vec![num(2), num(3), string("noooo")]),
        ),
        ("a_string", string("my_string")),
        ("test_string", string("no")),
    ]);
    assert_eq!(value, expected);
}

#[test]
fn deep_nesting_is_parsed() {
    let depth = 200;
    let text = "[".repeat(depth) + &"]".repeat(depth);
    let mut value = parse(&text).unwrap();
    for _ in 1..depth {
        value = match value {
            Value::Array(mut items) => {
                assert_eq!(items.len(), 1);
                items.pop().unwrap()
            }
            other => panic!("not an array: {:?}", other),
        };
    }
    assert_eq!(value, Value::Array(vec![]));
}
