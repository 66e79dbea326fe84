use twee_parser::html::{
    attribute, children_by_pid, find_storydata, join_strings, metadata_of, parse_element,
    passage_from, pid_number, set_attribute, stories_from_nodes, story_from_document,
    text_content,
};
use twee_parser::{
    parse_archive, parse_html, serialize_html, Error, JsonMap, JsonValue, MarkupElement,
    MarkupNode, Passage, Story, Warning,
};

fn texts(tags: &[String]) -> Vec<&str> {
    tags.iter().map(|t| t.as_str()).collect()
}

fn names(story: &Story) -> Vec<&str> {
    story.passages.iter().map(|p| p.name.as_str()).collect()
}

fn keys(m: &JsonMap) -> Vec<&str> {
    m.entries().iter().map(|e| e.0.as_str()).collect()
}

fn attrs(e: &MarkupElement) -> Vec<(&str, &str)> {
    e.attributes.iter().map(|a| (a.0.as_str(), a.1.as_str())).collect()
}

fn element(name: &str, attributes: &[(&str, &str)], children: Vec<MarkupNode>) -> MarkupElement {
    MarkupElement {
        name: name.to_string(),
        attributes: attributes.iter().map(|a| (a.0.to_string(), a.1.to_string())).collect(),
        children,
    }
}

fn child(e: &MarkupElement, i: usize) -> &MarkupElement {
    e.children[i].as_element().unwrap()
}

fn passage(name: &str, tags: &[&str], content: &str) -> Passage {
    Passage {
        name: name.to_string(),
        tags: tags.iter().map(|t| t.to_string()).collect(),
        meta: JsonMap::new(),
        content: content.to_string(),
    }
}

fn to_text(e: &MarkupElement) -> String {
    let mut bytes: Vec<u8> = Vec::new();
    e.to_outside().unwrap().write(&mut bytes).unwrap();
    String::from_utf8(bytes).unwrap()
}

#[test]
fn two_styles_merge_into_one_passage() {
    let source = "<tw-storydata name=\"S\"><style>body{color:red}</style><style>p{color:blue}</style></tw-storydata>";
    let (story, warnings) = parse_html(source).unwrap();
    assert!(warnings.is_empty());
    assert_eq!(story.passages.len(), 1);
    assert_eq!(story.passages[0].name, "StoryStylesheet");
    assert_eq!(texts(&story.passages[0].tags), vec!["stylesheet"]);
    assert_eq!(story.passages[0].content, "body{color:red}\np{color:blue}");
    assert!(story.passages[0].meta.is_empty());
}

#[test]
fn scripts_merge_too() {
    let source = "<tw-storydata name=\"S\"><script>a()</script><style>s</style><script>b()</script><script></script></tw-storydata>";
    let (story, _) = parse_html(source).unwrap();
    assert_eq!(names(&story), vec!["StoryScript", "StoryStylesheet"]);
    assert_eq!(story.passages[0].content, "a()\nb()");
    assert_eq!(texts(&story.passages[0].tags), vec!["script"]);
}

#[test]
fn passages_come_in_pid_order() {
    let source = "<tw-storydata name=\"S\"><tw-passagedata pid=\"2\" name=\"two\">2</tw-passagedata><tw-passagedata name=\"none\">n</tw-passagedata><tw-passagedata pid=\"1\" name=\"one\">1</tw-passagedata><tw-passagedata pid=\"x\" name=\"bad\">b</tw-passagedata><tw-passagedata pid=\"2\" name=\"two again\">2</tw-passagedata></tw-storydata>";
    let (story, warnings) = parse_html(source).unwrap();
    assert!(warnings.is_empty());
    assert_eq!(names(&story), vec!["one", "two", "two again", "none", "bad"]);
}

#[test]
fn passage_attributes() {
    let source = "<html><body><tw-storydata name=\"My &amp; Story\" startnode=\"2\" ifid=\"X\" hidden=\"\" format=\"Harlowe\"><tw-tag name=\"a\" color=\"red\"/><tw-tag name=\"b\" color=\"blue\"/><tw-tag name=\"nocolor\"/><tw-passagedata pid=\"1\" name=\"First\" tags=\"\" position=\"1,2\">one</tw-passagedata><tw-passagedata pid=\"2\" name=\"Second\" tags=\" t1  t2 \" size=\"3\">two &lt;b&gt;</tw-passagedata><tw-passagedata pid=\"3\" tags=\"x\">nameless</tw-passagedata><tw-passagedata pid=\"4\" name=\"Empty\"></tw-passagedata></tw-storydata></body></html>";
    let (story, warnings) = parse_html(source).unwrap();
    assert!(warnings.is_empty());
    assert_eq!(story.title, "My & Story");
    assert_eq!(names(&story), vec!["First", "Second", "Empty"]);
    assert!(story.passages[0].tags.is_empty());
    assert_eq!(keys(&story.passages[0].meta), vec!["position"]);
    assert_eq!(story.passages[0].meta.get("position").unwrap().as_str().unwrap(), "1,2");
    assert_eq!(texts(&story.passages[1].tags), vec!["t1", "t2"]);
    assert_eq!(story.passages[1].content, "two <b>");
    assert_eq!(keys(&story.passages[1].meta), vec!["size"]);
    assert_eq!(story.passages[2].content, "");
    assert_eq!(keys(&story.meta), vec!["ifid", "format", "start", "tag-colors"]);
    assert_eq!(story.meta.get("start").unwrap().as_str().unwrap(), "Second");
    let colors = story.meta.get("tag-colors").unwrap().as_object().unwrap();
    assert_eq!(keys(colors), vec!["a", "b"]);
    assert_eq!(colors.get("b").unwrap().as_str().unwrap(), "blue");
}

#[test]
fn title_missing() {
    let (story, warnings) = parse_html("<tw-storydata startnode=\"9\"/>").unwrap();
    assert_eq!(story.title, "");
    assert_eq!(warnings.len(), 1);
    assert!(matches!(warnings[0], Warning::StoryTitleMissing));
    assert_eq!(keys(&story.meta), vec!["tag-colors"]);
    assert!(story.meta.get("tag-colors").unwrap().as_object().unwrap().is_empty());
}

#[test]
fn errors_of_parse_html() {
    assert!(matches!(parse_html("<a><b></a>"), Err(Error::HTMLParseError(_))));
    assert!(matches!(parse_html(""), Err(Error::HTMLParseError(_))));
    assert!(matches!(parse_html("<a><b/>text</a>"), Err(Error::HTMLStoryDataNotFound)));
    assert!(parse_html("<a><b><tw-storydata/></b></a>").is_ok());
}

#[test]
fn archive() {
    let source = "<tw-storydata name=\"A\"><tw-passagedata pid=\"1\" name=\"p\">x</tw-passagedata></tw-storydata><tw-storydata><style>s</style></tw-storydata><other name=\"C\"/>";
    let stories = parse_archive(source).unwrap();
    assert_eq!(stories.len(), 3);
    assert_eq!(stories[0].0.title, "A");
    assert!(stories[0].1.is_empty());
    assert_eq!(names(&stories[0].0), vec!["p"]);
    assert_eq!(stories[1].0.title, "");
    assert!(matches!(stories[1].1[0], Warning::StoryTitleMissing));
    assert_eq!(names(&stories[1].0), vec!["StoryStylesheet"]);
    assert_eq!(stories[2].0.title, "C");
}

#[test]
fn errors_of_parse_archive() {
    assert!(matches!(parse_archive("<a>"), Err(Error::HTMLParseError(_))));
    assert!(matches!(
        parse_archive("<!-- note --><tw-storydata name=\"A\"/>"),
        Err(Error::HTMLStoryDataNotFound)
    ));
    assert_eq!(parse_archive("<tw-storydata name=\"A\"/>").unwrap().len(), 1);
}

#[test]
fn document_tree() {
    let root = MarkupElement::parse("<?xml version=\"1.0\"?><a x=\"1\" y=\"2\" x2=\"3\">t<!--c--><b/><![CDATA[d]]><?pi data?></a>").unwrap();
    assert_eq!(root.name, "a");
    assert_eq!(attrs(&root), vec![("x", "1"), ("y", "2"), ("x2", "3")]);
    assert_eq!(root.children.len(), 5);
    assert!(matches!(&root.children[0], MarkupNode::Text(t) if t == "t"));
    assert!(matches!(&root.children[1], MarkupNode::Comment(t) if t == "c"));
    assert!(matches!(&root.children[2], MarkupNode::Element(e) if e.name == "b"));
    assert!(matches!(&root.children[3], MarkupNode::Text(t) if t == "d"));
    assert!(matches!(&root.children[4], MarkupNode::ProcessingInstruction(n, Some(d)) if n == "pi" && d == "data"));
    assert!(root.children[0].as_element().is_none());
    assert_eq!(text_content(&root).unwrap(), "td");
    assert!(text_content(child(&root, 2)).is_none());
    let nodes = MarkupElement::parse_all("<!--c--><a/><b/>").unwrap();
    assert_eq!(nodes.len(), 3);
    assert!(MarkupElement::parse_all("<a>").is_err());
}

#[test]
fn outside_elements_convert_both_ways() {
    let text = "<a x=\"1\" y=\"2\">t<!--c--><b k=\"v\"><c/>deep</b><?pi data?></a>";
    let outside = xmltree::Element::parse(text.as_bytes()).unwrap();
    let own = MarkupElement::from_outside(&outside);
    assert_eq!(own.to_outside().unwrap(), outside);
    assert_eq!(own.children[2].to_outside().unwrap(), outside.children[2]);
    assert_eq!(own.children[0].to_outside().unwrap(), xmltree::XMLNode::Text("t".to_string()));
    let twice = element("e", &[("a", "1"), ("b", "2"), ("a", "3")], vec![]);
    assert!(twice.to_outside().is_none());
    let below = element("p", &[], vec![MarkupNode::Text("t".to_string()), MarkupNode::Element(twice)]);
    assert!(below.to_outside().is_none());
    assert!(below.children[1].to_outside().is_none());
    assert!(twee_parser::xml::attributes_unique(&below.attributes));
}

#[test]
fn searching_the_tree() {
    let inner = element("tw-storydata", &[("name", "deep")], vec![]);
    let second = element("tw-storydata", &[("name", "late")], vec![]);
    let root = element(
        "html",
        &[],
        vec![
            MarkupNode::Text("x".to_string()),
            MarkupNode::Element(element("head", &[], vec![])),
            MarkupNode::Element(element("body", &[], vec![MarkupNode::Element(inner)])),
            MarkupNode::Element(second),
        ],
    );
    assert_eq!(attribute(&find_storydata(&root).unwrap().attributes, "name").unwrap(), "deep");
    assert!(find_storydata(&element("a", &[], vec![])).is_none());
    assert!(matches!(story_from_document(&element("a", &[], vec![])), Err(Error::HTMLStoryDataNotFound)));
    let (story, _) = story_from_document(&root).unwrap();
    assert_eq!(story.title, "deep");
    assert!(matches!(
        stories_from_nodes(&vec![MarkupNode::Text("t".to_string())]),
        Err(Error::HTMLStoryDataNotFound)
    ));
    assert_eq!(stories_from_nodes(&vec![]).unwrap().len(), 0);
}

#[test]
fn element_helpers() {
    let e = element("e", &[("pid", "+12"), ("a", "1"), ("a", "2")], vec![]);
    assert_eq!(pid_number(&e), 12);
    assert_eq!(pid_number(&element("e", &[("pid", "-1")], vec![])), u32::MAX);
    assert_eq!(pid_number(&element("e", &[], vec![])), u32::MAX);
    assert_eq!(attribute(&e.attributes, "a").unwrap(), "1");
    assert!(attribute(&e.attributes, "b").is_none());
    let m = metadata_of(&e.attributes);
    assert_eq!(keys(&m), vec!["pid", "a"]);
    assert_eq!(m.get("a").unwrap().as_str().unwrap(), "2");
    let mut list = e.attributes.clone();
    set_attribute(&mut list, "pid".to_string(), "7".to_string());
    set_attribute(&mut list, "z".to_string(), "9".to_string());
    assert_eq!(list[0], ("pid".to_string(), "7".to_string()));
    assert_eq!(list[3], ("z".to_string(), "9".to_string()));
    assert_eq!(join_strings(&vec!["a".to_string(), "b".to_string(), "".to_string()], ", "), "a, b, ");
    assert_eq!(join_strings(&vec![], " "), "");
    let parent = element(
        "p",
        &[],
        vec![
            MarkupNode::Element(element("x", &[("pid", "3")], vec![])),
            MarkupNode::Text("t".to_string()),
            MarkupNode::Element(element("y", &[], vec![])),
            MarkupNode::Element(element("z", &[("pid", "1")], vec![])),
            MarkupNode::Element(element("w", &[("pid", "3")], vec![])),
        ],
    );
    let order: Vec<&str> = children_by_pid(&parent).iter().map(|c| c.name.as_str()).collect();
    assert_eq!(order, vec!["z", "x", "w", "y"]);
    let p = passage_from(&element(
        "tw-passagedata",
        &[("name", "N"), ("tags", "a b"), ("k", "v"), ("pid", "1")],
        vec![MarkupNode::Text("one".to_string()), MarkupNode::CData("two".to_string())],
    ))
    .unwrap();
    assert_eq!(p.name, "N");
    assert_eq!(texts(&p.tags), vec!["a", "b"]);
    assert_eq!(keys(&p.meta), vec!["k"]);
    assert_eq!(p.content, "onetwo");
    assert!(passage_from(&element("tw-passagedata", &[("pid", "1")], vec![])).is_none());
    let (story, _) = parse_element(&element("anything", &[("name", "T"), ("x", "y")], vec![]));
    assert_eq!(story.title, "T");
    assert_eq!(keys(&story.meta), vec!["x", "tag-colors"]);
}

#[test]
fn serialized_element() {
    let mut meta = JsonMap::new();
    meta.insert("ifid".to_string(), JsonValue::String("X".to_string()));
    meta.insert("zoom".to_string(), JsonValue::Bool(true));
    let mut colors = JsonMap::new();
    colors.insert("a".to_string(), JsonValue::String("red".to_string()));
    colors.insert("n".to_string(), JsonValue::Null);
    colors.insert("b".to_string(), JsonValue::String("blue".to_string()));
    meta.insert("tag-colors".to_string(), JsonValue::Object(colors));
    meta.insert("start".to_string(), JsonValue::String("Two".to_string()));
    let mut one = passage("One", &["x", "y"], "first");
    one.meta.insert("position".to_string(), JsonValue::String("1,2".to_string()));
    one.meta.insert("n".to_string(), JsonValue::Null);
    let story = Story {
        title: "T".to_string(),
        passages: vec![
            one,
            passage("Css", &["stylesheet"], "body{}"),
            passage("Two", &[], "second"),
            passage("Js", &["script", "z"], "go()"),
            passage("Css2", &["a", "stylesheet", "script"], "p{}"),
        ],
        meta,
    };
    let e = serialize_html(&story);
    assert_eq!(e.name, "tw-storydata");
    assert_eq!(attrs(&e), vec![("name", "T"), ("ifid", "X"), ("startnode", "2")]);
    assert_eq!(e.children.len(), 6);
    assert_eq!(child(&e, 0).name, "tw-tag");
    assert_eq!(attrs(child(&e, 0)), vec![("name", "b"), ("color", "blue")]);
    assert_eq!(attrs(child(&e, 1)), vec![("name", "a"), ("color", "red")]);
    assert_eq!(child(&e, 2).name, "tw-passagedata");
    assert_eq!(
        attrs(child(&e, 2)),
        vec![("pid", "1"), ("name", "One"), ("tags", "x y"), ("position", "1,2")]
    );
    assert_eq!(text_content(child(&e, 2)).unwrap(), "first");
    assert_eq!(child(&e, 3).name, "style");
    assert_eq!(
        attrs(child(&e, 3)),
        vec![("role", "stylesheet"), ("id", "twine-user-stylesheet"), ("type", "text/twine-css")]
    );
    assert_eq!(child(&e, 3).children.len(), 3);
    assert_eq!(text_content(child(&e, 3)).unwrap(), "body{}\np{}");
    assert_eq!(attrs(child(&e, 4)), vec![("pid", "2"), ("name", "Two"), ("tags", "")]);
    assert_eq!(child(&e, 5).name, "script");
    assert_eq!(
        attrs(child(&e, 5)),
        vec![("role", "script"), ("id", "twine-user-script"), ("type", "text/twine-javascript")]
    );
    assert_eq!(text_content(child(&e, 5)).unwrap(), "go()");
}

#[test]
fn start_that_names_no_passage_is_dropped() {
    let mut meta = JsonMap::new();
    meta.insert("start".to_string(), JsonValue::String("Nowhere".to_string()));
    meta.insert("name".to_string(), JsonValue::String("Other".to_string()));
    let story = Story { title: "T".to_string(), passages: vec![passage("A", &[], "")], meta };
    let e = serialize_html(&story);
    assert_eq!(attrs(&e), vec![("name", "Other")]);
}

#[test]
fn markup_round_trip() {
    let mut meta = JsonMap::new();
    meta.insert("ifid".to_string(), JsonValue::String("X-1".to_string()));
    meta.insert("start".to_string(), JsonValue::String("Second <2>".to_string()));
    let mut colors = JsonMap::new();
    colors.insert("a".to_string(), JsonValue::String("red".to_string()));
    colors.insert("b".to_string(), JsonValue::String("blue".to_string()));
    meta.insert("tag-colors".to_string(), JsonValue::Object(colors));
    meta.insert("format".to_string(), JsonValue::String("Harlowe".to_string()));
    let mut first = passage("First", &["a", "b"], "Hello & \"welcome\"\n  <b>bold</b>");
    first.meta.insert("position".to_string(), JsonValue::String("1,2".to_string()));
    let story = Story {
        title: "Round & Trip".to_string(),
        passages: vec![
            first,
            passage("Sheet", &["stylesheet"], "body { color: red }"),
            passage("Second <2>", &[], "x"),
            passage("Code", &["script"], "if (a < b) { go(); }"),
            passage("More", &["stylesheet", "extra"], "p { }"),
        ],
        meta,
    };
    let (read, warnings) = parse_html(&to_text(&serialize_html(&story))).unwrap();
    assert!(warnings.is_empty());
    assert_eq!(read.title, "Round & Trip");
    assert_eq!(names(&read), vec!["First", "Second <2>", "StoryStylesheet", "StoryScript"]);
    assert_eq!(texts(&read.passages[0].tags), vec!["a", "b"]);
    assert_eq!(read.passages[0].content, "Hello & \"welcome\"\n  <b>bold</b>");
    assert_eq!(keys(&read.passages[0].meta), vec!["position"]);
    assert_eq!(read.passages[1].content, "x");
    assert_eq!(read.passages[2].content, "body { color: red }\np { }");
    assert_eq!(texts(&read.passages[2].tags), vec!["stylesheet"]);
    assert_eq!(read.passages[3].content, "if (a < b) { go(); }");
    assert_eq!(keys(&read.meta), vec!["ifid", "format", "start", "tag-colors"]);
    assert_eq!(read.meta.get("start").unwrap().as_str().unwrap(), "Second <2>");
    assert_eq!(read.meta.get("ifid").unwrap().as_str().unwrap(), "X-1");
    let got = read.meta.get("tag-colors").unwrap().as_object().unwrap();
    assert_eq!(got.len(), 2);
    assert_eq!(got.get("a").unwrap().as_str().unwrap(), "red");
    assert_eq!(got.get("b").unwrap().as_str().unwrap(), "blue");
    let (again, _) = parse_element(&serialize_html(&story));
    assert_eq!(format!("{:?}", again), format!("{:?}", read));
}

fn read_back(story: &Story) -> Story {
    parse_html(&to_text(&serialize_html(story))).unwrap().0
}

#[test]
fn what_markup_does_not_keep() {
    let plain = |p: Passage| Story { title: "T".to_string(), passages: vec![p], meta: JsonMap::new() };

    // Metadata under the name of an attribute takes the place of the attribute.
    let mut p = passage("A", &["t"], "x");
    p.meta.insert("name".to_string(), JsonValue::String("B".to_string()));
    assert_eq!(names(&read_back(&plain(p))), vec!["B"]);

    // Metadata that is no string is dropped.
    let mut p = passage("A", &[], "x");
    p.meta.insert("n".to_string(), JsonValue::Bool(true));
    assert!(read_back(&plain(p)).passages[0].meta.is_empty());

    // A tag with white space in it reads as two tags.
    let back = read_back(&plain(passage("A", &["x y"], "")));
    assert_eq!(texts(&back.passages[0].tags), vec!["x", "y"]);

    // A passage named like the stylesheet takes the stylesheet in.
    let story = Story {
        title: "T".to_string(),
        passages: vec![passage("StoryStylesheet", &[], "mine"), passage("S", &["stylesheet"], "css")],
        meta: JsonMap::new(),
    };
    let back = read_back(&story);
    assert_eq!(names(&back), vec!["StoryStylesheet"]);
    assert_eq!(back.passages[0].content, "mine\ncss");

    // Story metadata named `hidden` is dropped, and `start` must name a passage.
    let mut meta = JsonMap::new();
    meta.insert("hidden".to_string(), JsonValue::String("".to_string()));
    meta.insert("start".to_string(), JsonValue::String("Nowhere".to_string()));
    let back = read_back(&Story { title: "T".to_string(), passages: vec![], meta });
    assert_eq!(keys(&back.meta), vec!["tag-colors"]);
}
