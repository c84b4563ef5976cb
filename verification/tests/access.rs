use jsonparse::{ObjectMap, OptionValueExt, Parser, Value};

fn sample() -> Value {
    Parser::new(r#"{"list":[10,20,{"deep":"x"}],"n":1,"o":{"k":null}}"#)
        .parse()
        .unwrap()
}

#[test]
fn get_map_finds_members() {
    let value = sample();
    assert_eq!(value.get_map("n"), Some(&Value::Int(1)));
    assert_eq!(value.get_map("missing"), None);
    assert_eq!(value.get_map(""), None);
}

#[test]
fn get_arr_finds_elements() {
    let value = sample();
    let list = value.get_map("list").unwrap();
    assert_eq!(list.get_arr(0), Some(&Value::Int(10)));
    assert_eq!(list.get_arr(1), Some(&Value::Int(20)));
    assert_eq!(list.get_arr(3), None);
    assert_eq!(list.get_arr(usize::MAX), None);
}

#[test]
fn soft_lookups_on_the_wrong_kind_find_nothing() {
    let value = sample();
    assert_eq!(value.get_arr(0), None);
    assert_eq!(value.get_map("list").unwrap().get_map("0"), None);
    assert_eq!(Value::Int(1).get_arr(0), None);
    assert_eq!(Value::Int(1).get_map("a"), None);
    assert_eq!(Value::Null.get_map("a"), None);
    assert_eq!(Value::JsonString("a".to_string()).get_arr(0), None);
}

#[test]
fn soft_lookups_chain() {
    let value = sample();
    let root = Some(&value);
    assert_eq!(
        root.get_map("list").get_arr(2).get_map("deep"),
        Some(&Value::JsonString("x".to_string()))
    );
    assert_eq!(root.get_map("o").get_map("k"), Some(&Value::Null));
}

#[test]
fn chain_after_a_missing_key_finds_nothing() {
    let value = sample();
    let root = Some(&value);
    assert_eq!(root.get_map("missing"), None);
    assert_eq!(root.get_map("missing").get_map("list"), None);
    assert_eq!(root.get_map("missing").get_arr(0).get_map("deep"), None);
    assert_eq!(root.get_map("list").get_arr(9).get_map("deep").get_arr(0), None);
}

#[test]
fn chain_from_nothing_finds_nothing() {
    let nothing: Option<&Value> = None;
    assert_eq!(nothing.get_arr(0), None);
    assert_eq!(nothing.get_map("a"), None);
    assert_eq!(nothing.get_map("a").get_arr(1).get_map("b"), None);
}

#[test]
fn chain_on_a_failed_parse_finds_nothing() {
    let failed = Parser::new("[1,2,]").parse();
    assert_eq!(failed.as_ref().get_arr(0), None);
}

#[test]
fn indexing_finds_what_is_there() {
    let value = sample();
    assert_eq!(value["n"], Value::Int(1));
    assert_eq!(value["list"][1], Value::Int(20));
    assert_eq!(value["list"][2]["deep"], Value::JsonString("x".to_string()));
    assert_eq!(value["o"]["k"], Value::Null);
}

#[test]
fn object_map_replaces_on_insert() {
    let mut members = ObjectMap::new();
    assert_eq!(members.len(), 0);
    members.insert("a".to_string(), Value::Int(1));
    members.insert("b".to_string(), Value::Int(2));
    members.insert("a".to_string(), Value::Int(3));
    assert_eq!(members.len(), 2);
    assert_eq!(members.get("a"), Some(&Value::Int(3)));
    assert_eq!(members.get("b"), Some(&Value::Int(2)));
    assert_eq!(members.get("c"), None);
    let (key, value) = members.entry(0);
    assert_eq!(key, "a");
    assert_eq!(value, &Value::Int(3));
    let (key, value) = members.entry(1);
    assert_eq!(key, "b");
    assert_eq!(value, &Value::Int(2));
}

#[test]
fn objects_are_equal_whatever_the_order_of_insertion() {
    let mut first = ObjectMap::new();
    first.insert("a".to_string(), Value::Int(1));
    first.insert("b".to_string(), Value::Array(vec![Value::Null]));
    let mut second = ObjectMap::new();
    second.insert("b".to_string(), Value::Array(vec![Value::Null]));
    second.insert("a".to_string(), Value::Int(1));
    assert_eq!(Value::Object(first), Value::Object(second));
}

#[test]
fn objects_with_different_members_differ() {
    let mut first = ObjectMap::new();
    first.insert("a".to_string(), Value::Int(1));
    let mut second = ObjectMap::new();
    second.insert("a".to_string(), Value::Int(2));
    let mut third = ObjectMap::new();
    third.insert("b".to_string(), Value::Int(1));
    let mut fourth = ObjectMap::new();
    fourth.insert("a".to_string(), Value::Int(1));
    fourth.insert("b".to_string(), Value::Int(1));
    assert_ne!(first, second);
    assert_ne!(first, third);
    assert_ne!(first, fourth);
    assert_ne!(fourth, first);
    assert_ne!(Value::Object(first), Value::Array(vec![]));
}

#[test]
fn values_of_different_kinds_differ() {
    assert_ne!(Value::Int(1), Value::Float("1".to_string()));
    assert_ne!(Value::Int(0), Value::Null);
    assert_ne!(Value::Bool(false), Value::Null);
    assert_ne!(Value::JsonString("1".to_string()), Value::Float("1".to_string()));
    assert_ne!(Value::Array(vec![Value::Int(1)]), Value::Array(vec![]));
    assert_ne!(
        Value::Array(vec![Value::Int(1), Value::Int(2)]),
        Value::Array(vec![Value::Int(2), Value::Int(1)])
    );
}

#[test]
fn clone_gives_an_equal_value() {
    let value = sample();
    let copy = value.clone();
    assert_eq!(copy, value);
    assert_eq!(copy["list"][2]["deep"], Value::JsonString("x".to_string()));
}
