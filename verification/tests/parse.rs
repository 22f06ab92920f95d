use quick_xmltodict::convert::{_parse, parse};
use quick_xmltodict::error::ErrorKind;
use quick_xmltodict::value::{Mapping, Value};

fn show(value: &Value) -> String {
    match value {
        Value::Absent => "null".to_string(),
        Value::Text(text) => format!("{:?}", text),
        Value::Mapping(mapping) => show_mapping(mapping),
        Value::List(items) => {
            let shown: Vec<String> = items.iter().map(show).collect();
            format!("[{}]", shown.join(", "))
        }
    }
}

fn show_mapping(mapping: &Mapping) -> String {
    let mut shown: Vec<String> = mapping
        .entries()
        .iter()
        .map(|entry| format!("{:?}: {}", entry.key, show(&entry.value)))
        .collect();
    shown.sort();
    format!("{{{}}}", shown.join(", "))
}

fn converted(xml: &str) -> String {
    match _parse(xml) {
        Ok(mapping) => show_mapping(&mapping),
        Err(error) => panic!("{:?}", error),
    }
}

fn failure(xml: &str) -> ErrorKind {
    match _parse(xml) {
        Ok(mapping) => panic!("converted to {}", show_mapping(&mapping)),
        Err(error) => error.kind,
    }
}

#[test]
fn empty_element_is_absent() {
    assert_eq!(converted("<a/>"), r#"{"a": null}"#);
}

#[test]
fn empty_element_with_attribute() {
    assert_eq!(converted("<a x=\"1\"/>"), r#"{"a": {"@x": "1"}}"#);
}

#[test]
fn text_only_element_collapses() {
    assert_eq!(converted("<a>hi</a>"), r#"{"a": "hi"}"#);
}

#[test]
fn text_with_attribute_does_not_collapse() {
    assert_eq!(converted("<a x=\"1\">hi</a>"), r##"{"a": {"#text": "hi", "@x": "1"}}"##);
}

#[test]
fn repeated_child_becomes_list_in_order() {
    assert_eq!(converted("<a><b>1</b><b>2</b></a>"), r#"{"a": {"b": ["1", "2"]}}"#);
}

#[test]
fn distinct_children_stay_scalar() {
    assert_eq!(converted("<a><b>1</b><c>2</c></a>"), r#"{"a": {"b": "1", "c": "2"}}"#);
}

#[test]
fn prefix_is_kept() {
    assert_eq!(converted("<ns:a/>"), r#"{"ns:a": null}"#);
}

#[test]
fn mismatched_end_tag_is_structural_error() {
    assert_eq!(failure("<a><b></a>"), ErrorKind::StructuralError);
}

#[test]
fn truncated_document_is_structural_error() {
    assert_eq!(failure("<a><b/>"), ErrorKind::StructuralError);
    assert_eq!(failure("<a>text"), ErrorKind::StructuralError);
    assert_eq!(failure("<a"), ErrorKind::StructuralError);
}

#[test]
fn end_tag_without_start_is_structural_error() {
    assert_eq!(failure("</a>"), ErrorKind::StructuralError);
    assert_eq!(failure("<a/></a>"), ErrorKind::StructuralError);
}

#[test]
fn broken_attribute_is_structural_error() {
    assert_eq!(failure("<a x=1/>"), ErrorKind::StructuralError);
    assert_eq!(failure("<a x=\"1\" x=\"2\"/>"), ErrorKind::StructuralError);
    assert_eq!(failure("<a x/>"), ErrorKind::StructuralError);
}

#[test]
fn unknown_entity_is_structural_error() {
    assert_eq!(failure("<a>&nope;</a>"), ErrorKind::StructuralError);
    assert_eq!(failure("<a x=\"&nope;\"/>"), ErrorKind::StructuralError);
}

#[test]
fn empty_document_is_empty_mapping() {
    assert_eq!(converted(""), "{}");
    assert_eq!(converted("   \n "), "{}");
}

#[test]
fn third_occurrence_is_appended() {
    assert_eq!(
        converted("<a><b>1</b><b/><b x=\"y\"/></a>"),
        r#"{"a": {"b": ["1", null, {"@x": "y"}]}}"#
    );
}

#[test]
fn repeated_root_elements_become_list() {
    assert_eq!(converted("<a/><a>1</a>"), r#"{"a": [null, "1"]}"#);
}

#[test]
fn entities_are_unescaped() {
    assert_eq!(converted("<a x=\"&lt;&amp;\">1 &gt; 0 &#65;</a>"), r##"{"a": {"#text": "1 > 0 A", "@x": "<&"}}"##);
}

#[test]
fn whitespace_between_elements_is_dropped() {
    assert_eq!(converted("<a>\n  <b>1</b>\n  <c> 2 </c>\n</a>\n"), r#"{"a": {"b": "1", "c": "2"}}"#);
}

#[test]
fn repeated_text_overwrites() {
    assert_eq!(converted("<a>one<b/>two</a>"), r##"{"a": {"#text": "two", "b": null}}"##);
}

#[test]
fn text_at_top_level_does_not_collapse() {
    assert_eq!(converted("hello"), r##"{"#text": "hello"}"##);
}

#[test]
fn start_and_end_without_content_is_empty_mapping() {
    assert_eq!(converted("<a></a>"), r#"{"a": {}}"#);
}

#[test]
fn comments_and_declarations_are_ignored() {
    assert_eq!(
        converted("<?xml version=\"1.0\"?><!-- c --><a><!-- d --><![CDATA[x]]>t</a>"),
        r#"{"a": "t"}"#
    );
}

#[test]
fn prefixed_attributes_and_children() {
    assert_eq!(
        converted("<r xmlns:n=\"u\" n:k=\"v\"><n:c>1</n:c></r>"),
        r#"{"r": {"@n:k": "v", "@xmlns:n": "u", "n:c": "1"}}"#
    );
}

#[test]
fn nested_elements() {
    assert_eq!(
        converted("<a><b><c><d>x</d></c></b></a>"),
        r#"{"a": {"b": {"c": {"d": "x"}}}}"#
    );
}

#[test]
fn attribute_and_child_of_one_key_collide() {
    assert_eq!(converted("<a b=\"1\"><@b>2</@b></a>"), r#"{"a": {"@b": ["1", "2"]}}"#);
}

#[test]
fn entries_keep_document_order() {
    let mapping = _parse("<z/><y/><x/><y/>").unwrap();
    let keys: Vec<&str> = mapping.entries().iter().map(|entry| entry.key.as_str()).collect();
    assert_eq!(keys, vec!["z", "y", "x"]);
}

#[test]
fn parse_of_bytes_gives_mapping() {
    match parse(b"<a>hi</a>") {
        Ok(value) => assert_eq!(show(&value), r#"{"a": "hi"}"#),
        Err(error) => panic!("{:?}", error),
    }
}

#[test]
fn parse_of_invalid_bytes_is_text_encoding_error() {
    match parse(&[b'<', b'a', 0xff, b'/', b'>']) {
        Ok(value) => panic!("converted to {}", show(&value)),
        Err(error) => assert_eq!(error.kind, ErrorKind::TextEncodingError),
    }
}

#[test]
fn parse_of_malformed_bytes_is_structural_error() {
    match parse(b"<a><b></a>") {
        Ok(value) => panic!("converted to {}", show(&value)),
        Err(error) => assert_eq!(error.kind, ErrorKind::StructuralError),
    }
}

#[test]
fn deep_nesting_is_converted() {
    let depth = 2000;
    let mut xml = String::new();
    for _ in 0..depth {
        xml.push_str("<a>");
    }
    for _ in 0..depth {
        xml.push_str("</a>");
    }
    let mapping = _parse(&xml).unwrap();
    assert_eq!(mapping.len(), 1);
}

fn escaped(text: &str) -> String {
    text.replace('&', "&amp;")
        .replace('<', "&lt;")
        .replace('>', "&gt;")
        .replace('"', "&quot;")
        .replace('\'', "&apos;")
}

fn element_xml(key: &str, value: &Value) -> String {
    match value {
        Value::Absent => format!("<{}/>", key),
        Value::Text(text) => format!("<{}>{}</{}>", key, escaped(text), key),
        Value::Mapping(mapping) => {
            let mut attributes = String::new();
            for entry in mapping.entries() {
                if let (Some(name), Value::Text(text)) = (entry.key.strip_prefix('@'), &entry.value) {
                    attributes.push_str(&format!(" {}=\"{}\"", name, escaped(text)));
                }
            }
            format!("<{}{}>{}</{}>", key, attributes, level_xml(mapping), key)
        }
        Value::List(_) => unreachable!(),
    }
}

fn level_xml(mapping: &Mapping) -> String {
    let mut xml = String::new();
    for entry in mapping.entries() {
        if entry.key.starts_with('@') {
            continue;
        }
        match (entry.key.as_str(), &entry.value) {
            ("#text", Value::Text(text)) => xml.push_str(&escaped(text)),
            (key, Value::List(items)) => {
                for item in items {
                    xml.push_str(&element_xml(key, item));
                }
            }
            (key, value) => xml.push_str(&element_xml(key, value)),
        }
    }
    xml
}

fn converts_back(xml: &str) {
    let first = _parse(xml).unwrap();
    let again = _parse(&level_xml(&first)).unwrap();
    assert_eq!(show_mapping(&again), show_mapping(&first), "{}", level_xml(&first));
}

#[test]
fn converted_mapping_converts_back() {
    converts_back("");
    converts_back("<a/>");
    converts_back("<a x=\"1\"/>");
    converts_back("<a>hi</a>");
    converts_back("<a x=\"1\">hi</a>");
    converts_back("<a><b>1</b><b>2</b></a>");
    converts_back("<a><b>1</b><c>2</c></a>");
    converts_back("<ns:a/>");
    converts_back("<a></a>");
    converts_back("<a>one<b/>two</a>");
    converts_back("<a><b/><c/><b x=\"&lt;&quot;&amp;\">t &gt; u</b><b><d><e/></d></b></a><f/><a/>");
    converts_back("<r xmlns:n=\"u\" n:k=\"v\"><n:c>1</n:c><n:c/><n:c n:k=\"w\"/></r>");
    converts_back("top<a>  spaced   out  </a>");
}

#[test]
fn order_of_distinct_children_does_not_matter() {
    let first = _parse("<a x=\"1\" y=\"2\"><b>1</b><c>2</c></a>").unwrap();
    let second = _parse("<a y=\"2\" x=\"1\"><c>2</c><b>1</b></a>").unwrap();
    assert!(first == second);
}

#[test]
fn order_of_repeated_children_matters() {
    let first = _parse("<a><b>1</b><b>2</b></a>").unwrap();
    let second = _parse("<a><b>2</b><b>1</b></a>").unwrap();
    assert!(first != second);
}

#[test]
fn many_distinct_children_are_converted() {
    let mut xml = String::from("<r>");
    for i in 0..20000 {
        xml.push_str(&format!("<c{}/>", i));
    }
    xml.push_str("</r>");
    let mapping = _parse(&xml).unwrap();
    match mapping.get("r") {
        Some(Value::Mapping(children)) => {
            assert_eq!(children.len(), 20000);
            assert!(matches!(children.get("c19999"), Some(Value::Absent)));
            assert!(children.get("c20000").is_none());
        }
        other => panic!("{:?}", other.map(show)),
    }
}
