use quick_xmltodict::convert::{attributes_mapping, convert, Converter};
use quick_xmltodict::error::ErrorKind;
use quick_xmltodict::event::{
    resolve, resolve_attribute, resolve_tag, resolve_text, Attribute, Event,
};
use quick_xmltodict::token::{RawAttribute, Token};
use quick_xmltodict::value::{Mapping, Value};

fn show(value: &Value) -> String {
    match value {
        Value::Absent => "null".to_string(),
        Value::Text(text) => format!("{:?}", text),
        Value::Mapping(mapping) => show_mapping(mapping),
        Value::List(items) => {
            let shown: Vec<String> = items.iter().map(show).collect();
            format!("[{}]", shown.join(", "))
        }
    }
}

fn show_mapping(mapping: &Mapping) -> String {
    let mut shown: Vec<String> = mapping
        .entries()
        .iter()
        .map(|entry| format!("{:?}: {}", entry.key, show(&entry.value)))
        .collect();
    shown.sort();
    format!("{{{}}}", shown.join(", "))
}

fn start(key: &str) -> Event {
    Event::Start { key: key.to_string(), attributes: Vec::new() }
}

fn start_with(key: &str, attributes: &[(&str, &str)]) -> Event {
    Event::Start { key: key.to_string(), attributes: attributes_of(attributes) }
}

fn empty(key: &str) -> Event {
    Event::Empty { key: key.to_string(), attributes: Vec::new() }
}

fn empty_with(key: &str, attributes: &[(&str, &str)]) -> Event {
    Event::Empty { key: key.to_string(), attributes: attributes_of(attributes) }
}

fn text(text: &str) -> Event {
    Event::Text { text: text.to_string() }
}

fn attributes_of(attributes: &[(&str, &str)]) -> Vec<Attribute> {
    attributes
        .iter()
        .map(|(key, value)| Attribute { key: key.to_string(), value: value.to_string() })
        .collect()
}

fn converted(events: Vec<Event>) -> String {
    match convert(events) {
        Ok(mapping) => show_mapping(&mapping),
        Err(error) => panic!("{:?}", error),
    }
}

#[test]
fn no_events_convert_to_empty_mapping() {
    assert_eq!(converted(vec![]), "{}");
}

#[test]
fn empty_event_without_attributes_is_absent() {
    assert_eq!(converted(vec![empty("a")]), r#"{"a": null}"#);
}

#[test]
fn empty_event_with_attributes_is_their_mapping() {
    assert_eq!(
        converted(vec![empty_with("a", &[("x", "1"), ("n:y", "2")])]),
        r#"{"a": {"@n:y": "2", "@x": "1"}}"#
    );
}

#[test]
fn element_of_text_collapses() {
    assert_eq!(converted(vec![start("a"), text("hi"), Event::End]), r#"{"a": "hi"}"#);
}

#[test]
fn element_of_text_and_attribute_keeps_both() {
    assert_eq!(
        converted(vec![start_with("a", &[("x", "1")]), text("hi"), Event::End]),
        r##"{"a": {"#text": "hi", "@x": "1"}}"##
    );
}

#[test]
fn children_of_one_key_become_list() {
    assert_eq!(
        converted(vec![
            start("a"),
            start("b"),
            text("1"),
            Event::End,
            start("b"),
            text("2"),
            Event::End,
            Event::End,
        ]),
        r#"{"a": {"b": ["1", "2"]}}"#
    );
}

#[test]
fn later_text_replaces_earlier_text() {
    assert_eq!(
        converted(vec![start("a"), text("1"), empty("b"), text("2"), Event::End]),
        r##"{"a": {"#text": "2", "b": null}}"##
    );
}

#[test]
fn later_attribute_replaces_earlier_of_same_name() {
    assert_eq!(
        converted(vec![empty_with("a", &[("x", "1"), ("x", "2")])]),
        r#"{"a": {"@x": "2"}}"#
    );
}

#[test]
fn colliding_attribute_and_children_are_merged() {
    assert_eq!(
        converted(vec![start_with("a", &[("b", "1")]), empty("@b"), empty("@b"), Event::End]),
        r#"{"a": {"@b": ["1", [null, null]]}}"#
    );
}

#[test]
fn end_without_start_is_structural_error() {
    let error = convert(vec![empty("a"), Event::End]).unwrap_err();
    assert_eq!(error.kind, ErrorKind::StructuralError);
    assert_eq!(error.detail, "end tag without a start tag");
}

#[test]
fn open_element_at_the_end_is_structural_error() {
    let error = convert(vec![start("a"), start("b"), Event::End]).unwrap_err();
    assert_eq!(error.kind, ErrorKind::StructuralError);
    assert_eq!(error.detail, "end of input inside an element");
}

#[test]
fn converter_is_left_as_it_was_by_an_error() {
    let mut converter = Converter::new();
    converter.feed(empty("a")).unwrap();
    assert!(converter.feed(Event::End).is_err());
    converter.feed(empty("a")).unwrap();
    let mapping = converter.finish().unwrap();
    assert_eq!(show_mapping(&mapping), r#"{"a": [null, null]}"#);
}

#[test]
fn attributes_mapping_prefixes_each_key() {
    let mapping = attributes_mapping(attributes_of(&[("x", "1"), ("ns:y", "")]));
    assert_eq!(show_mapping(&mapping), r#"{"@ns:y": "", "@x": "1"}"#);
    assert_eq!(attributes_mapping(Vec::new()).len(), 0);
}

#[test]
fn text_is_decoded_and_unescaped() {
    assert_eq!(resolve_text(b"a &lt; b &amp;&amp; c").unwrap(), "a < b && c");
    assert_eq!(resolve_text("&#xe9;t&#233;".as_bytes()).unwrap(), "été");
    assert_eq!(resolve_text(b"").unwrap(), "");
}

#[test]
fn text_of_invalid_bytes_is_text_encoding_error() {
    let error = resolve_text(&[b'a', 0xfe]).unwrap_err();
    assert_eq!(error.kind, ErrorKind::TextEncodingError);
}

#[test]
fn text_with_unknown_entity_is_structural_error() {
    let error = resolve_text(b"&unknown;").unwrap_err();
    assert_eq!(error.kind, ErrorKind::StructuralError);
    let error = resolve_text(b"a & b").unwrap_err();
    assert_eq!(error.kind, ErrorKind::StructuralError);
}

#[test]
fn attribute_is_named_and_unescaped() {
    let attribute = resolve_attribute(&RawAttribute::Pair {
        key: b"ns:k".to_vec(),
        value: b"&quot;v&quot;".to_vec(),
    })
    .unwrap();
    assert_eq!(attribute.key, "ns:k");
    assert_eq!(attribute.value, "\"v\"");
}

#[test]
fn malformed_attribute_is_structural_error() {
    let error = resolve_attribute(&RawAttribute::Malformed { detail: "broken".to_string() })
        .unwrap_err();
    assert_eq!(error.kind, ErrorKind::StructuralError);
    assert_eq!(error.detail, "broken");
}

#[test]
fn attribute_of_invalid_bytes_is_text_encoding_error() {
    let error = resolve_attribute(&RawAttribute::Pair { key: vec![0xff], value: b"v".to_vec() })
        .unwrap_err();
    assert_eq!(error.kind, ErrorKind::TextEncodingError);
    let error = resolve_attribute(&RawAttribute::Pair { key: b"k".to_vec(), value: vec![0xff] })
        .unwrap_err();
    assert_eq!(error.kind, ErrorKind::TextEncodingError);
}

#[test]
fn tag_is_named_and_its_attributes_parsed() {
    let (key, attributes) = resolve_tag(b"n:a", b" x=\"1\"  y = '2&gt;'").unwrap();
    assert_eq!(key, "n:a");
    assert_eq!(attributes.len(), 2);
    assert_eq!(attributes[0].key, "x");
    assert_eq!(attributes[0].value, "1");
    assert_eq!(attributes[1].key, "y");
    assert_eq!(attributes[1].value, "2>");
}

#[test]
fn tag_without_attributes_has_none() {
    let (key, attributes) = resolve_tag(b"a", b"").unwrap();
    assert_eq!(key, "a");
    assert!(attributes.is_empty());
    let (_, attributes) = resolve_tag(b"a", b"   ").unwrap();
    assert!(attributes.is_empty());
}

#[test]
fn tag_with_broken_attributes_is_structural_error() {
    assert_eq!(resolve_tag(b"a", b" x").unwrap_err().kind, ErrorKind::StructuralError);
    assert_eq!(resolve_tag(b"a", b" x=").unwrap_err().kind, ErrorKind::StructuralError);
    assert_eq!(resolve_tag(b"a", b" x=\"1").unwrap_err().kind, ErrorKind::StructuralError);
    assert_eq!(
        resolve_tag(b"a", b" x=\"1\" x=\"2\"").unwrap_err().kind,
        ErrorKind::StructuralError
    );
}

#[test]
fn first_fault_of_a_tag_is_reported() {
    let error = resolve_tag(b"a", b" x=\"&bad;\" y").unwrap_err();
    assert_eq!(error.kind, ErrorKind::StructuralError);
    assert!(error.detail.contains("bad"));
}

#[test]
fn tag_of_invalid_bytes_is_text_encoding_error() {
    assert_eq!(resolve_tag(&[0xff], b"").unwrap_err().kind, ErrorKind::TextEncodingError);
    assert_eq!(resolve_tag(b"a", &[b' ', 0xff]).unwrap_err().kind, ErrorKind::TextEncodingError);
}

#[test]
fn tokens_resolve_to_events() {
    match resolve(Token::Start { name: b"a".to_vec(), attributes: b" x=\"1\"".to_vec() }) {
        Ok(Some(Event::Start { key, attributes })) => {
            assert_eq!(key, "a");
            assert_eq!(attributes.len(), 1);
        }
        other => panic!("{:?}", other),
    }
    match resolve(Token::Empty { name: b"n:b".to_vec(), attributes: Vec::new() }) {
        Ok(Some(Event::Empty { key, attributes })) => {
            assert_eq!(key, "n:b");
            assert!(attributes.is_empty());
        }
        other => panic!("{:?}", other),
    }
    assert!(matches!(resolve(Token::End), Ok(Some(Event::End))));
    match resolve(Token::Text { content: b"&amp;".to_vec() }) {
        Ok(Some(Event::Text { text })) => assert_eq!(text, "&"),
        other => panic!("{:?}", other),
    }
}

#[test]
fn tokens_without_content_resolve_to_nothing() {
    assert!(matches!(resolve(Token::Other), Ok(None)));
    assert!(matches!(resolve(Token::Eof), Ok(None)));
}

#[test]
fn malformed_token_is_structural_error() {
    let error = resolve(Token::Malformed { detail: "bad markup".to_string() }).unwrap_err();
    assert_eq!(error.kind, ErrorKind::StructuralError);
    assert_eq!(error.detail, "bad markup");
}

#[test]
fn token_of_invalid_bytes_is_text_encoding_error() {
    let error = resolve(Token::Text { content: vec![0xc0, 0x80] }).unwrap_err();
    assert_eq!(error.kind, ErrorKind::TextEncodingError);
    let error =
        resolve(Token::Start { name: vec![b'a', 0xff], attributes: Vec::new() }).unwrap_err();
    assert_eq!(error.kind, ErrorKind::TextEncodingError);
}
