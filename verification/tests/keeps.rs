use twee_parser::keeps::{
    keeps_content, keeps_data, keeps_meta_line, keeps_name, keeps_passage, keeps_title,
    names_differ, no_colon_lines, no_escape_lines, no_specials, on_one_line, reads_as, same_chars,
    tags_are_words,
};
use twee_parser::{parse_twee3, serialize_twee3, twee_keeps, JsonMap, JsonValue, Passage, Story};

fn chars(s: &str) -> Vec<char> {
    s.chars().collect()
}

fn passage(name: &str, tags: &[&str], content: &str) -> Passage {
    Passage {
        name: name.to_string(),
        tags: tags.iter().map(|t| t.to_string()).collect(),
        meta: JsonMap::new(),
        content: content.to_string(),
    }
}

fn story(title: &str, passages: Vec<Passage>) -> Story {
    let mut meta = JsonMap::new();
    meta.insert("ifid".to_string(), JsonValue::String("X".to_string()));
    meta.insert("zoom".to_string(), JsonValue::parse("[1, 0.25, -3]").unwrap());
    Story { title: title.to_string(), passages, meta }
}

fn comes_back(s: &Story) -> bool {
    let (read, warnings) = parse_twee3(&serialize_twee3(s)).unwrap();
    warnings.is_empty() && format!("{:?}", read) == format!("{:?}", s)
}

#[test]
fn kept_stories_come_back() {
    let mut with_meta = passage("Start \\ [here]", &["a", "b{}"], "::text\n  more\n\\x");
    with_meta.meta.insert("position".to_string(), JsonValue::String("1,2".to_string()));
    with_meta.meta.insert("n".to_string(), JsonValue::parse("{\"k\": [null, 1.5e300]}").unwrap());
    for s in [
        story("T", vec![]),
        story("A title: with colons ::", vec![passage("One", &[], "")]),
        story("T", vec![with_meta, passage("Two", &["t"], "x"), passage("StoryTitle2", &[], "y")]),
    ] {
        assert!(twee_keeps(&s));
        assert!(comes_back(&s));
    }
}

#[test]
fn stories_that_are_not_kept() {
    let cases = vec![
        story("", vec![]),
        story(" T", vec![]),
        story("a[b", vec![]),
        story("a\n::b", vec![]),
        story("T", vec![passage("", &[], "")]),
        story("T", vec![passage("A ", &[], "")]),
        story("T", vec![passage("A\nB", &[], "")]),
        story("T", vec![passage("StoryData", &[], "")]),
        story("T", vec![passage("StoryTitle", &[], "")]),
        story("T", vec![passage("A", &["x y"], "")]),
        story("T", vec![passage("A", &[""], "")]),
        story("T", vec![passage("A", &[], "text \n")]),
        story("T", vec![passage("A", &[], "x\n\\::y")]),
        story("T", vec![passage("A", &[], "1"), passage("B", &[], "2"), passage("A", &[], "3")]),
    ];
    for s in cases {
        assert!(!twee_keeps(&s), "{:?}", s);
        assert!(!comes_back(&s), "{:?}", s);
    }
}

#[test]
fn the_single_tests() {
    assert!(same_chars(&chars("ab"), &chars("ab")));
    assert!(!same_chars(&chars("ab"), &chars("ac")));
    assert!(!same_chars(&chars("ab"), &chars("abc")));
    assert!(no_specials(&chars("a:b c")));
    for s in ["\\", "[", "]", "{", "}"] {
        assert!(!no_specials(&chars(s)));
    }
    assert!(no_colon_lines(&chars("a::\n:\n :: x\n:")));
    assert!(!no_colon_lines(&chars("::")));
    assert!(!no_colon_lines(&chars("a\n::b")));
    assert!(no_escape_lines(&chars("\\:\n \\::\n\\\\::\n\\:")));
    assert!(!no_escape_lines(&chars("\\::")));
    assert!(!no_escape_lines(&chars("a\n\\::")));
    assert!(on_one_line(&chars("a b\t")));
    assert!(!on_one_line(&chars("a\rb")));
    assert!(!on_one_line(&chars("a\n")));
    assert!(tags_are_words(&vec![]));
    assert!(tags_are_words(&vec!["a".to_string(), "b[".to_string()]));
    assert!(!tags_are_words(&vec!["a".to_string(), "".to_string()]));
    assert!(!tags_are_words(&vec!["a\u{a0}b".to_string()]));
    assert!(keeps_title("T t"));
    assert!(!keeps_title("T "));
    assert!(keeps_name("A b"));
    assert!(!keeps_name("\tA"));
    assert!(keeps_content("  x\n y"));
    assert!(!keeps_content("x\n"));
    assert!(keeps_meta_line("{\"a\": 1}\r"));
    assert!(!keeps_meta_line(""));
    assert!(!keeps_meta_line(" {}"));
    assert!(!keeps_meta_line("{\n}"));
    assert!(names_differ(&vec![passage("a", &[], ""), passage("A", &[], "")]));
    assert!(!names_differ(&vec![passage("a", &[], ""), passage("a", &["t"], "x")]));
    assert!(keeps_passage(&passage("A", &["t"], "x")));
    assert!(!keeps_passage(&passage("A", &["t"], "x ")));
    let mut m = JsonMap::new();
    assert!(reads_as(" {} ", &m));
    assert!(!reads_as("[]", &m));
    assert!(!reads_as("{", &m));
    assert!(keeps_data(&m, true));
    m.insert("a".to_string(), JsonValue::parse("1.0").unwrap());
    assert!(reads_as("{\"a\": 1.0}", &m));
    assert!(reads_as("{\"a\": 1.00}", &m));
    assert!(!reads_as("{\"a\": 1}", &m));
    assert!(!reads_as("{\"a\": 1.0, \"b\": 2}", &m));
    assert!(!reads_as("{}", &m));
    assert!(keeps_data(&m, false));
}

#[test]
fn same_json_values() {
    let a = JsonValue::parse("{\"x\": [1, \"s\", null, true, {\"y\": -2.5}], \"z\": {}}").unwrap();
    let b = JsonValue::parse(" { \"x\" : [1,\"s\",null,true,{\"y\":-2.5}],\"z\":{} }").unwrap();
    assert!(a.same(&b));
    assert!(a.same(&a.duplicate()));
    for other in [
        "{\"z\": {}, \"x\": [1, \"s\", null, true, {\"y\": -2.5}]}",
        "{\"x\": [1, \"s\", null, true, {\"y\": -2.5}]}",
        "{\"x\": [1, \"s\", null, false, {\"y\": -2.5}], \"z\": {}}",
        "{\"x\": [1.0, \"s\", null, true, {\"y\": -2.5}], \"z\": {}}",
        "{\"x\": [1, \"s\", null, true, {\"y\": -2.5}], \"z\": []}",
        "{\"x\": [1, \"s\", null, true], \"z\": {}}",
        "null",
        "\"x\"",
    ] {
        assert!(!a.same(&JsonValue::parse(other).unwrap()), "{}", other);
    }
    assert!(JsonValue::Null.same(&JsonValue::Null));
    assert!(!JsonValue::Null.same(&JsonValue::Bool(false)));
    assert!(!JsonValue::parse("0.0").unwrap().same(&JsonValue::parse("-0.0").unwrap()));
}
