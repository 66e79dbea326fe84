use twee_parser::{JsonMap, JsonValue};

fn keys(m: &JsonMap) -> Vec<&str> {
    m.entries().iter().map(|e| e.0.as_str()).collect()
}

#[test]
fn map_keeps_insertion_order() {
    let mut m = JsonMap::new();
    assert!(m.is_empty());
    m.insert("b".to_string(), JsonValue::Null);
    m.insert("a".to_string(), JsonValue::Bool(true));
    m.insert("c".to_string(), JsonValue::Bool(false));
    assert_eq!(keys(&m), vec!["b", "a", "c"]);
    m.insert("a".to_string(), JsonValue::String("x".to_string()));
    assert_eq!(keys(&m), vec!["b", "a", "c"]);
    assert_eq!(m.len(), 3);
    assert_eq!(m.get("a").unwrap().as_str().unwrap(), "x");
    assert!(m.get("z").is_none());
}

#[test]
fn map_remove_keeps_the_rest_in_order() {
    let mut m = JsonMap::new();
    m.insert("a".to_string(), JsonValue::Null);
    m.insert("b".to_string(), JsonValue::Bool(true));
    m.insert("c".to_string(), JsonValue::Null);
    assert!(matches!(m.remove("a"), Some(JsonValue::Null)));
    assert_eq!(keys(&m), vec!["b", "c"]);
    assert!(m.remove("a").is_none());
    assert!(matches!(m.remove("b"), Some(JsonValue::Bool(true))));
    assert_eq!(keys(&m), vec!["c"]);
    assert_eq!(m.clone().len(), 1);
}

#[test]
fn parse_keeps_document_order() {
    let v = JsonValue::parse("{\"z\": 1, \"a\": [true, null, \"s\"], \"m\": {\"y\": 2, \"b\": 3}}").unwrap();
    let m = v.as_object().unwrap();
    assert_eq!(keys(m), vec!["z", "a", "m"]);
    assert_eq!(keys(m.get("m").unwrap().as_object().unwrap()), vec!["y", "b"]);
    match m.get("a").unwrap() {
        JsonValue::Array(items) => {
            assert_eq!(items.len(), 3);
            assert!(matches!(items[0], JsonValue::Bool(true)));
            assert!(matches!(items[1], JsonValue::Null));
            assert_eq!(items[2].as_str().unwrap(), "s");
        }
        other => panic!("{:?}", other),
    }
    assert!(v.as_str().is_none());
}

#[test]
fn empty_object() {
    let v = JsonValue::parse("{}").unwrap();
    assert!(v.as_object().unwrap().is_empty());
    assert_eq!(v.to_text(), "{}");
    assert_eq!(v.to_text_pretty(), "{}");
}

#[test]
fn metadata_texts_read_back() {
    let mut m = JsonMap::new();
    m.insert("position".to_string(), JsonValue::String("1,2\n{".to_string()));
    m.insert("n".to_string(), JsonValue::Array(vec![JsonValue::Null, JsonValue::Bool(false)]));
    let v = JsonValue::Object(m);
    let line = v.to_text();
    assert!(line.starts_with('{'));
    assert!(!line.contains('\n'));
    assert_eq!(JsonValue::parse(&line).unwrap().to_outside(), v.to_outside());
    let pretty = v.to_text_pretty();
    assert!(pretty.lines().all(|l| !l.starts_with("::") && !l.starts_with("\\::")));
    assert_eq!(JsonValue::parse(&(pretty + "\n\n\n")).unwrap().to_outside(), v.to_outside());
}

#[test]
fn parse_rejects_what_is_no_json() {
    assert!(JsonValue::parse("").is_none());
    assert!(JsonValue::parse("{").is_none());
    assert!(JsonValue::parse("{} x").is_none());
    assert!(JsonValue::parse("{{\"a\":1}}").is_none());
    assert!(JsonValue::parse(" {} \n").is_some());
}

#[test]
fn text_forms() {
    let v = JsonValue::parse("{\"b\": [1, -2, 1.5], \"a\": {\"k\": \"v\\n\"}, \"n\": null}").unwrap();
    assert_eq!(v.to_text(), "{\"b\":[1,-2,1.5],\"a\":{\"k\":\"v\\n\"},\"n\":null}");
    assert_eq!(
        v.to_text_pretty(),
        "{\n  \"b\": [\n    1,\n    -2,\n    1.5\n  ],\n  \"a\": {\n    \"k\": \"v\\n\"\n  },\n  \"n\": null\n}"
    );
    assert_eq!(JsonValue::Object(twee_parser::JsonMap::new()).to_text(), "{}");
    assert_eq!(JsonValue::Array(vec![]).to_text_pretty(), "[]");
}

#[test]
fn outside_values_convert_both_ways() {
    let text = "{\"b\":[1,{\"x\":false},\"s\"],\"a\":null,\"big\":18446744073709551615}";
    let outside: serde_json::Value = serde_json::from_str(text).unwrap();
    let own = JsonValue::from_outside(&outside);
    assert_eq!(own.to_outside(), outside);
    assert_eq!(own.to_text(), text);
    assert_eq!(own.duplicate().to_text(), text);
    assert_eq!(own.clone().to_text(), text);
    let number = JsonValue::Number(serde_json::Number::from(7));
    assert_eq!(number.to_outside(), serde_json::Value::from(7));
}
