use twee_parser::twee3::{
    find_header, find_line_end, scan_header, unescape_content, write_head, write_passage, Header,
    TweeReader,
};
use twee_parser::{parse_twee3, serialize_twee3, JsonMap, JsonValue, Passage, Story, Warning};

fn texts(tags: &[String]) -> Vec<&str> {
    tags.iter().map(|t| t.as_str()).collect()
}

fn chars(s: &str) -> Vec<char> {
    s.chars().collect()
}

fn text(v: &[char]) -> String {
    v.iter().collect()
}

fn passage(name: &str, tags: &[&str], content: &str) -> Passage {
    Passage {
        name: name.to_string(),
        tags: tags.iter().map(|t| t.to_string()).collect(),
        meta: JsonMap::new(),
        content: content.to_string(),
    }
}

fn kinds(warnings: &[Warning]) -> Vec<String> {
    warnings.iter().map(|w| format!("{:?}", w)).collect()
}

#[test]
fn duplicate_keeps_first_passage() {
    let (story, warnings) = parse_twee3(":: A\nfoo\n\n:: A\nbar\n").unwrap();
    assert_eq!(story.passages.len(), 1);
    assert_eq!(story.passages[0].name, "A");
    assert!(story.passages[0].tags.is_empty());
    assert!(story.passages[0].meta.is_empty());
    assert_eq!(story.passages[0].content, "foo");
    assert_eq!(story.title, "");
    assert_eq!(warnings.len(), 2);
    assert!(matches!(&warnings[0], Warning::PassageDuplicated(n) if n == "A"));
    assert!(matches!(&warnings[1], Warning::StoryTitleMissing));
}

#[test]
fn duplicate_is_reported_once() {
    let (story, warnings) =
        parse_twee3(":: StoryTitle\nT\n:: A\nfirst\n:: B\nother\n:: A\nsecond\n").unwrap();
    let dups = warnings
        .iter()
        .filter(|w| matches!(w, Warning::PassageDuplicated(n) if n == "A"))
        .count();
    assert_eq!(dups, 1);
    assert_eq!(warnings.len(), 1);
    assert_eq!(story.passages.len(), 2);
    assert_eq!(story.passages[0].content, "first");
    assert_eq!(story.passages[1].name, "B");
}

#[test]
fn unterminated_tags_are_kept() {
    let (story, warnings) = parse_twee3(":: StoryTitle\nT\n:: A [tag1 tag2\nbody\n").unwrap();
    assert_eq!(warnings.len(), 1);
    assert!(matches!(&warnings[0], Warning::PassageTagsMalformed(n) if n == "A"));
    assert_eq!(story.passages.len(), 1);
    assert_eq!(texts(&story.passages[0].tags), vec!["tag1", "tag2"]);
    assert_eq!(story.passages[0].content, "body");
}

#[test]
fn closed_tags_are_not_repeated() {
    let (story, warnings) = parse_twee3(":: StoryTitle\nT\n:: A [t1 t2]\nbody\n").unwrap();
    assert!(warnings.is_empty());
    assert_eq!(texts(&story.passages[0].tags), vec!["t1", "t2"]);
}

#[test]
fn white_space_between_tags_is_skipped() {
    let (story, _) = parse_twee3(":: A [  t1 \t t2  ]\n").unwrap();
    assert_eq!(texts(&story.passages[0].tags), vec!["t1", "t2"]);
}

#[test]
fn escapes_in_the_header() {
    let (story, warnings) =
        parse_twee3(":: StoryTitle\nT\n:: A\\[1\\] [a\\ b c\\]] {\"k\":\"v\"}\nx\n").unwrap();
    assert!(warnings.is_empty());
    let p = &story.passages[0];
    assert_eq!(p.name, "A[1]");
    assert_eq!(texts(&p.tags), vec!["a b", "c]"]);
    assert_eq!(p.meta.len(), 1);
    assert_eq!(p.meta.get("k").unwrap().as_str().unwrap(), "v");
}

#[test]
fn metadata_without_tags() {
    let (story, warnings) = parse_twee3(":: StoryTitle\nT\n:: A {\"position\":\"1,2\"}\nx\n").unwrap();
    assert!(warnings.is_empty());
    assert_eq!(story.passages[0].name, "A");
    assert_eq!(story.passages[0].meta.get("position").unwrap().as_str().unwrap(), "1,2");
}

#[test]
fn malformed_metadata_reads_as_empty() {
    let (story, warnings) = parse_twee3(":: StoryTitle\nT\n:: A {oops\nx\n:: B {}\n:: C {[1]\n").unwrap();
    assert_eq!(
        kinds(&warnings),
        vec!["PassageMetadataMalformed(\"A\")", "PassageMetadataMalformed(\"C\")"]
    );
    assert_eq!(story.passages.len(), 3);
    assert!(story.passages[0].meta.is_empty());
    assert!(story.passages[1].meta.is_empty());
}

#[test]
fn metadata_that_is_no_object() {
    let (_, warnings) = parse_twee3(":: StoryTitle\nT\n:: StoryData\n[1, 2]\n").unwrap();
    assert_eq!(kinds(&warnings), vec!["StoryMetadataMalformed"]);
}

#[test]
fn story_data_and_title() {
    let source = ":: StoryTitle\n  My Story \n\n:: StoryData\n{\n  \"ifid\": \"X\",\n  \"zoom\": 1\n}\n\n:: Start\nHello\n";
    let (story, warnings) = parse_twee3(source).unwrap();
    assert!(warnings.is_empty(), "{:?}", warnings);
    assert_eq!(story.title, "My Story");
    assert_eq!(story.meta.len(), 2);
    assert_eq!(story.meta.entries()[0].0, "ifid");
    assert_eq!(story.meta.get("ifid").unwrap().as_str().unwrap(), "X");
    assert!(matches!(story.meta.get("zoom"), Some(JsonValue::Number(n)) if n.as_u64() == Some(1)));
    assert_eq!(story.passages.len(), 1);
    assert_eq!(story.passages[0].content, "Hello");
}

#[test]
fn reserved_passages_twice() {
    let source = ":: StoryTitle\nA\n:: StoryTitle\nB\n:: StoryData\n{}\n:: StoryData\nnope\n";
    let (story, warnings) = parse_twee3(source).unwrap();
    assert_eq!(story.title, "B");
    assert!(story.passages.is_empty());
    assert_eq!(
        kinds(&warnings),
        vec![
            "PassageDuplicated(\"StoryTitle\")",
            "PassageDuplicated(\"StoryData\")",
            "StoryMetadataMalformed"
        ]
    );
    assert!(story.meta.is_empty());
}

#[test]
fn missing_name() {
    let (story, warnings) = parse_twee3("::\nlost\n:: [tag]\nlost too\n").unwrap();
    assert!(story.passages.is_empty());
    assert_eq!(
        kinds(&warnings),
        vec!["PassageNameMissing", "PassageNameMissing", "StoryTitleMissing"]
    );
}

#[test]
fn text_before_the_first_header_is_dropped() {
    let (story, warnings) = parse_twee3("preface\n:: StoryTitle\nT\n").unwrap();
    assert!(warnings.is_empty());
    assert_eq!(story.title, "T");
    assert!(story.passages.is_empty());
}

#[test]
fn header_needs_a_line_feed() {
    let (story, _) = parse_twee3(":: A\nbody\n:: B").unwrap();
    assert_eq!(story.passages.len(), 1);
    assert_eq!(story.passages[0].content, "body\n:: B");
}

#[test]
fn header_only_at_line_start() {
    let (story, _) = parse_twee3(":: A\nx :: y\n ::z\n").unwrap();
    assert_eq!(story.passages.len(), 1);
    assert_eq!(story.passages[0].content, "x :: y\n ::z");
}

#[test]
fn carriage_return_ends_the_header() {
    let (story, warnings) = parse_twee3(":: StoryTitle\r\nT\r\n:: A [t]\r\nbody\r\n").unwrap();
    assert!(warnings.is_empty());
    assert_eq!(story.title, "T");
    assert_eq!(story.passages[0].name, "A");
    assert_eq!(texts(&story.passages[0].tags), vec!["t"]);
    assert_eq!(story.passages[0].content, "body");
}

#[test]
fn escaped_colons_are_restored_on_every_line() {
    let (story, _) = parse_twee3(":: A\n\\:: one\nx \\:: y\n\\::two\n").unwrap();
    assert_eq!(story.passages[0].content, ":: one\nx \\:: y\n::two");
}

#[test]
fn empty_text() {
    let (story, warnings) = parse_twee3("").unwrap();
    assert_eq!(story.title, "");
    assert!(story.passages.is_empty());
    assert!(story.meta.is_empty());
    assert_eq!(kinds(&warnings), vec!["StoryTitleMissing"]);
}

#[test]
fn line_ends_and_headers() {
    let v = chars("ab\ncd\n::x\n::y");
    assert_eq!(find_line_end(&v, 0), 2);
    assert_eq!(find_line_end(&v, 2), 2);
    assert_eq!(find_line_end(&v, 3), 5);
    assert_eq!(find_line_end(&v, 10), 13);
    assert_eq!(find_header(&v, 0), 6);
    assert_eq!(find_header(&v, 6), 6);
    assert_eq!(find_header(&v, 10), 13);
}

#[test]
fn header_scanning() {
    let v = chars(":: Name \\{x [a b] ignored {\"m\": 1}\r\nrest");
    let h = scan_header(&v, 2);
    assert_eq!(h.name, "Name {x");
    assert_eq!(texts(&h.tags), vec!["a", "b"]);
    assert_eq!(h.meta, "{\"m\": 1}\r");
    assert!(!h.unclosed);
    let h = scan_header(&chars("::A[x"), 2);
    assert_eq!(h.name, "A");
    assert_eq!(texts(&h.tags), vec!["x"]);
    assert_eq!(h.meta, "{}");
    assert!(h.unclosed);
}

#[test]
fn unescaping_a_range() {
    let v = chars("ab\\::c\n\\::d\\::");
    assert_eq!(text(&unescape_content(&v, 2, v.len())), "::c\n::d\\::");
    assert_eq!(text(&unescape_content(&v, 0, v.len())), "ab\\::c\n::d\\::");
    assert_eq!(text(&unescape_content(&v, 3, 3)), "");
}

#[test]
fn reader_takes_parsed_metadata() {
    let mut reader = TweeReader::new();
    let header = |name: &str| Header {
        name: name.to_string(),
        tags: vec!["t".to_string()],
        meta: "{}".to_string(),
        unclosed: false,
    };
    let mut m = JsonMap::new();
    m.insert("a".to_string(), JsonValue::Bool(true));
    reader.record(header("P"), "text \n", Some(JsonValue::Object(m.clone())));
    reader.record(header("Q"), "q", Some(JsonValue::Null));
    reader.record(header("R"), "r", None);
    reader.record(header("StoryData"), "", Some(JsonValue::Object(m)));
    reader.record(header("StoryTitle"), " T ", None);
    let (story, warnings) = reader.finish();
    assert_eq!(story.title, "T");
    assert_eq!(story.meta.len(), 1);
    assert_eq!(story.passages.len(), 3);
    assert_eq!(story.passages[0].content, "text");
    assert_eq!(story.passages[0].meta.len(), 1);
    assert!(story.passages[1].meta.is_empty());
    assert_eq!(
        kinds(&warnings),
        vec!["PassageMetadataMalformed(\"Q\")", "PassageMetadataMalformed(\"R\")"]
    );
}

#[test]
fn head_and_passage_blocks() {
    assert_eq!(
        text(&write_head("A [1]", "{}")),
        ":: StoryTitle\nA \\[1\\]\n\n:: StoryData\n{}\n\n"
    );
    let mut out = Vec::new();
    write_passage(&mut out, &passage("N{", &["a", "b\\"], "::x\ny\n::z"), "unused");
    assert_eq!(text(&out), "\n:: N\\{ [a b\\\\]\n\\::x\ny\n\\::z\n");
    let mut p = passage("N", &[], "c");
    p.meta.insert("k".to_string(), JsonValue::Null);
    let mut out = chars("X");
    write_passage(&mut out, &p, "{json}");
    assert_eq!(text(&out), "X\n:: N {json}\nc\n");
}

#[test]
fn serialized_story() {
    let mut meta = JsonMap::new();
    meta.insert("ifid".to_string(), JsonValue::String("X".to_string()));
    let mut p = passage("Start", &["t1", "t2"], "Hello\n::there");
    p.meta.insert("position".to_string(), JsonValue::String("1,2".to_string()));
    let story = Story { title: "T".to_string(), passages: vec![p, passage("End", &[], "")], meta };
    assert_eq!(
        serialize_twee3(&story),
        ":: StoryTitle\nT\n\n:: StoryData\n{\n  \"ifid\": \"X\"\n}\n\n\n:: Start [t1 t2] {\"position\":\"1,2\"}\nHello\n\\::there\n\n:: End\n\n"
    );
}

#[test]
fn parse_serialize_parse() {
    let source = ":: StoryTitle\nMy Story\n\n:: StoryData\n{\"ifid\": \"ABC\", \"format\": \"Harlowe\", \"n\": [1, 2.5, {\"a\": null}]}\n\n:: Start [intro \\[x\\]] {\"position\":\"10,20\",\"size\":\"100,100\"}\nOnce upon a time\n\\:: not a header\n\n\n:: Second One\nText with {braces} and [[links]]\n:: Third\n";
    let (first, warnings) = parse_twee3(source).unwrap();
    assert!(warnings.is_empty(), "{:?}", warnings);
    let again = serialize_twee3(&first);
    let (second, warnings) = parse_twee3(&again).unwrap();
    assert!(warnings.is_empty(), "{:?}", warnings);
    assert_eq!(format!("{:?}", first), format!("{:?}", second));
    assert_eq!(serialize_twee3(&second), again);
    assert_eq!(second.passages[0].content, "Once upon a time\n:: not a header");
    assert_eq!(texts(&second.passages[0].tags), vec!["intro", "[x]"]);
}

#[test]
fn parse_twee() {
    let source = ":: StoryTitle\nTest Story\n\n:: StoryData\n{\n  \"ifid\": \"D674C58C-DEFA-4F70-B7A2-27742230C0FC\",\n  \"format\": \"Harlowe\",\n  \"format-version\": \"3.3.8\",\n  \"start\": \"Start\",\n  \"zoom\": 1\n}\n\n:: Start {\"position\":\"300,100\",\"size\":\"100,100\"}\nHello [[Next]]\n\n:: Next [a b] {\"position\":\"500,100\",\"size\":\"100,100\"}\nThe end.\n";
    let story = parse_twee3(source).unwrap();
    assert!(story.1.len() == 0, "{:?}", story.1);
}
