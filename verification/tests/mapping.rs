use quick_xmltodict::value::{update_mapping, Mapping, Value};

fn text(value: &str) -> Value {
    Value::Text(value.to_string())
}

fn show(value: &Value) -> String {
    match value {
        Value::Absent => "null".to_string(),
        Value::Text(text) => format!("{:?}", text),
        Value::Mapping(mapping) => show_mapping(mapping),
        Value::List(items) => {
            let shown: Vec<String> = items.iter().map(show).collect();
            format!("[{}]", shown.join(", "))
        }
    }
}

fn show_mapping(mapping: &Mapping) -> String {
    let shown: Vec<String> = mapping
        .entries()
        .iter()
        .map(|entry| format!("{:?}: {}", entry.key, show(&entry.value)))
        .collect();
    format!("{{{}}}", shown.join(", "))
}

#[test]
fn new_mapping_is_empty() {
    let mapping = Mapping::new();
    assert_eq!(mapping.len(), 0);
    assert!(mapping.get("a").is_none());
    assert!(!mapping.contains_key("a"));
    assert!(mapping.entries().is_empty());
}

#[test]
fn first_value_is_kept_as_it_is() {
    let mut mapping = Mapping::new();
    update_mapping(&mut mapping, "a".to_string(), text("1"));
    update_mapping(&mut mapping, "b".to_string(), Value::Absent);
    update_mapping(&mut mapping, "c".to_string(), Value::Mapping(Mapping::new()));
    assert_eq!(show_mapping(&mapping), r#"{"a": "1", "b": null, "c": {}}"#);
    assert_eq!(mapping.len(), 3);
}

#[test]
fn second_value_makes_a_list_of_both() {
    let mut mapping = Mapping::new();
    update_mapping(&mut mapping, "a".to_string(), text("1"));
    update_mapping(&mut mapping, "a".to_string(), text("2"));
    assert_eq!(show_mapping(&mapping), r#"{"a": ["1", "2"]}"#);
    assert_eq!(mapping.len(), 1);
}

#[test]
fn further_values_are_appended() {
    let mut mapping = Mapping::new();
    update_mapping(&mut mapping, "a".to_string(), text("1"));
    update_mapping(&mut mapping, "a".to_string(), Value::Absent);
    update_mapping(&mut mapping, "a".to_string(), text("3"));
    update_mapping(&mut mapping, "a".to_string(), text("4"));
    assert_eq!(show_mapping(&mapping), r#"{"a": ["1", null, "3", "4"]}"#);
}

#[test]
fn merge_leaves_other_keys_alone() {
    let mut mapping = Mapping::new();
    update_mapping(&mut mapping, "a".to_string(), text("1"));
    update_mapping(&mut mapping, "b".to_string(), text("2"));
    update_mapping(&mut mapping, "c".to_string(), text("3"));
    update_mapping(&mut mapping, "b".to_string(), text("4"));
    assert_eq!(show_mapping(&mapping), r#"{"a": "1", "b": ["2", "4"], "c": "3"}"#);
}

#[test]
fn list_that_is_present_takes_the_value() {
    let mut mapping = Mapping::new();
    update_mapping(&mut mapping, "a".to_string(), Value::List(vec![text("1")]));
    update_mapping(&mut mapping, "a".to_string(), text("2"));
    assert_eq!(show_mapping(&mapping), r#"{"a": ["1", "2"]}"#);
}

#[test]
fn insert_replaces_the_value() {
    let mut mapping = Mapping::new();
    mapping.insert("a".to_string(), text("1"));
    mapping.insert("b".to_string(), text("2"));
    mapping.insert("a".to_string(), text("3"));
    assert_eq!(show_mapping(&mapping), r#"{"a": "3", "b": "2"}"#);
    assert_eq!(mapping.len(), 2);
}

#[test]
fn get_finds_the_value_of_a_key() {
    let mut mapping = Mapping::new();
    mapping.merge("a".to_string(), text("1"));
    mapping.merge("b".to_string(), text("2"));
    assert_eq!(show(mapping.get("b").unwrap()), r#""2""#);
    assert_eq!(show(mapping.get("a").unwrap()), r#""1""#);
    assert!(mapping.get("c").is_none());
    assert!(mapping.contains_key("a"));
    assert!(!mapping.contains_key(""));
}

#[test]
fn merge_all_merges_each_entry() {
    let mut attributes = Mapping::new();
    attributes.insert("@x".to_string(), text("1"));
    attributes.insert("@y".to_string(), text("2"));
    let mut children = Mapping::new();
    children.merge("b".to_string(), text("3"));
    children.merge("@y".to_string(), text("4"));
    children.merge("@y".to_string(), text("5"));
    attributes.merge_all(children);
    assert_eq!(
        show_mapping(&attributes),
        r#"{"@x": "1", "@y": ["2", ["4", "5"]], "b": "3"}"#
    );
}

#[test]
fn merge_all_of_empty_changes_nothing() {
    let mut mapping = Mapping::new();
    mapping.insert("a".to_string(), text("1"));
    mapping.merge_all(Mapping::new());
    assert_eq!(show_mapping(&mapping), r#"{"a": "1"}"#);
}

#[test]
fn text_alone_collapses() {
    let mut mapping = Mapping::new();
    mapping.insert("#text".to_string(), text("hi"));
    assert_eq!(show(&mapping.into_value()), r#""hi""#);
}

#[test]
fn text_beside_another_key_does_not_collapse() {
    let mut mapping = Mapping::new();
    mapping.insert("@x".to_string(), text("1"));
    mapping.insert("#text".to_string(), text("hi"));
    assert_eq!(show(&mapping.into_value()), r##"{"@x": "1", "#text": "hi"}"##);
}

#[test]
fn single_key_other_than_text_does_not_collapse() {
    let mut mapping = Mapping::new();
    mapping.insert("b".to_string(), text("hi"));
    assert_eq!(show(&mapping.into_value()), r#"{"b": "hi"}"#);
}

#[test]
fn text_key_without_text_does_not_collapse() {
    let mut mapping = Mapping::new();
    mapping.insert("#text".to_string(), Value::Absent);
    assert_eq!(show(&mapping.into_value()), r##"{"#text": null}"##);
}

#[test]
fn empty_mapping_does_not_collapse() {
    assert_eq!(show(&Mapping::new().into_value()), "{}");
}

#[test]
fn mappings_are_equal_whatever_the_order_of_their_entries() {
    let mut first = Mapping::new();
    first.insert("a".to_string(), text("1"));
    first.insert("b".to_string(), Value::List(vec![text("2"), Value::Absent]));
    let mut second = Mapping::new();
    second.insert("b".to_string(), Value::List(vec![text("2"), Value::Absent]));
    second.insert("a".to_string(), text("1"));
    assert!(first == second);
    assert!(first.same_as(&second));
    assert!(Value::Mapping(first) == Value::Mapping(second));
}

#[test]
fn mappings_with_different_keys_or_values_differ() {
    let mut first = Mapping::new();
    first.insert("a".to_string(), text("1"));
    let mut second = Mapping::new();
    second.insert("a".to_string(), text("2"));
    assert!(first != second);
    let mut third = Mapping::new();
    third.insert("b".to_string(), text("1"));
    assert!(first != third);
    let mut fourth = Mapping::new();
    fourth.insert("a".to_string(), text("1"));
    fourth.insert("b".to_string(), text("1"));
    assert!(first != fourth);
    assert!(fourth != first);
    assert!(Mapping::new() == Mapping::new());
    assert!(Mapping::new() != first);
}

#[test]
fn lists_are_equal_in_the_same_order_only() {
    let first = Value::List(vec![text("1"), text("2")]);
    assert!(first == Value::List(vec![text("1"), text("2")]));
    assert!(first != Value::List(vec![text("2"), text("1")]));
    assert!(first != Value::List(vec![text("1")]));
    assert!(first != Value::List(vec![text("1"), text("2"), text("3")]));
}

#[test]
fn values_of_different_kinds_differ() {
    assert!(Value::Absent == Value::Absent);
    assert!(text("") != Value::Absent);
    assert!(text("a") == text("a"));
    assert!(text("a") != text("b"));
    assert!(Value::Mapping(Mapping::new()) != Value::Absent);
    assert!(Value::Mapping(Mapping::new()) != Value::List(Vec::new()));
    assert!(Value::List(Vec::new()) == Value::List(Vec::new()));
}

#[test]
fn nested_values_are_compared_in_depth() {
    let mut inner = Mapping::new();
    inner.insert("x".to_string(), text("1"));
    let mut outer = Mapping::new();
    outer.insert("a".to_string(), Value::Mapping(inner));
    let mut other_inner = Mapping::new();
    other_inner.insert("x".to_string(), text("2"));
    let mut other = Mapping::new();
    other.insert("a".to_string(), Value::Mapping(other_inner));
    assert!(outer != other);
    assert!(outer == outer);
}
