use jsonparse::{ObjectMap, Parser, Value};

fn reparsed(value: &Value) -> Option<Value> {
    Parser::new(&value.render()).parse()
}

#[test]
fn scalars_render_as_their_literals() {
    assert_eq!(Value::Null.render(), "null");
    assert_eq!(Value::Bool(true).render(), "true");
    assert_eq!(Value::Bool(false).render(), "false");
    assert_eq!(Value::Int(0).render(), "0");
    assert_eq!(Value::Int(7).render(), "7");
    assert_eq!(Value::Int(10).render(), "10");
    assert_eq!(Value::Int(1234567890).render(), "1234567890");
    assert_eq!(Value::Int(i32::MAX).render(), "2147483647");
    assert_eq!(Value::Float("32.12345".to_string()).render(), "32.12345");
    assert_eq!(Value::Float("1.".to_string()).render(), "1.");
}

#[test]
fn negative_integers_render_with_a_sign() {
    assert_eq!(Value::Int(-1).render(), "-1");
    assert_eq!(Value::Int(-90).render(), "-90");
    assert_eq!(Value::Int(i32::MIN).render(), "-2147483648");
}

#[test]
fn strings_render_between_quotes_without_escapes() {
    assert_eq!(Value::JsonString("abc".to_string()).render(), "\"abc\"");
    assert_eq!(Value::JsonString("".to_string()).render(), "\"\"");
    assert_eq!(Value::JsonString("a\"b".to_string()).render(), "\"a\"b\"");
    assert_eq!(Value::JsonString("a\\b".to_string()).render(), "\"a\\b\"");
}

#[test]
fn empty_containers_render_on_one_line() {
    assert_eq!(Value::Array(vec![]).render(), "[]");
    assert_eq!(Value::Object(ObjectMap::new()).render(), "{}");
}

#[test]
fn arrays_render_one_element_on_each_line() {
    let value = Value::Array(vec![
        Value::Int(1),
        Value::JsonString("a".to_string()),
        Value::Null,
    ]);
    assert_eq!(value.render(), "[\n    1,\n    \"a\",\n    null\n]");
}

#[test]
fn objects_render_one_member_on_each_line() {
    let mut members = ObjectMap::new();
    members.insert("k".to_string(), Value::Null);
    members.insert("n".to_string(), Value::Int(3));
    assert_eq!(
        Value::Object(members).render(),
        "{\n    \"k\": null,\n    \"n\": 3\n}"
    );
}

#[test]
fn nested_containers_are_indented_by_level() {
    let mut inner = ObjectMap::new();
    inner.insert("b".to_string(), Value::Array(vec![Value::Int(2)]));
    let value = Value::Array(vec![
        Value::Array(vec![Value::Int(1)]),
        Value::Object(inner),
        Value::Array(vec![]),
    ]);
    let expected = "[\n    [\n        1\n    ],\n    {\n        \"b\": [\n            2\n        ]\n    },\n    []\n]";
    assert_eq!(value.render(), expected);
}

#[test]
fn rendered_text_is_read_back_as_the_same_value() {
    let text = r#"
    {
        "no": false,
        "inner_obj": {
            "inner_field": null,
            "inner_array_of_objects": [
                { "in_obj_1_a": true, "in_obj_1_b": 32.12345 },
                { "in_obj_2_a": [2,[3]] }
            ]
        },
        "some_number": 32,
        "big": 99999999999,
        "array_thingy": [ 2, 3, "noooo" ],
        "empty": [[], {}],
        "a_string": "my_string"
    }
    "#;
    let value = Parser::new(text).parse().unwrap();
    assert_eq!(reparsed(&value), Some(value.clone()));
    let again = reparsed(&value).unwrap();
    assert_eq!(again.render(), value.render());
}

#[test]
fn scalars_are_read_back_as_themselves() {
    for value in [
        Value::Null,
        Value::Bool(true),
        Value::Bool(false),
        Value::Int(0),
        Value::Int(42),
        Value::Int(i32::MAX),
        Value::Float("2147483648".to_string()),
        Value::Float("0.25".to_string()),
        Value::JsonString("plain text, with: punctuation [and] {braces}".to_string()),
        Value::JsonString("".to_string()),
    ] {
        assert_eq!(reparsed(&value), Some(value));
    }
}

#[test]
fn integer_and_float_stay_apart_when_read_back() {
    let value = Parser::new("[2147483647, 2147483648, 1.0]").parse().unwrap();
    let again = reparsed(&value).unwrap();
    assert_eq!(again.get_arr(0), Some(&Value::Int(i32::MAX)));
    assert_eq!(again.get_arr(1), Some(&Value::Float("2147483648".to_string())));
    assert_eq!(again.get_arr(2), Some(&Value::Float("1.0".to_string())));
}

#[test]
fn quote_in_a_string_is_lost_when_read_back() {
    let value = Parser::new(r#""a\"b""#).parse().unwrap();
    assert_eq!(value, Value::JsonString("a\"b".to_string()));
    assert_eq!(reparsed(&value), Some(Value::JsonString("a".to_string())));
}

#[test]
fn negative_integer_is_not_read_back() {
    assert_eq!(reparsed(&Value::Int(-5)), None);
}
