use twee_parser::twee3::{find_header, push_content, unescape_content};

const SAMPLES: [&str; 12] = [
    "",
    "::",
    "::\n",
    ":: A\nbody\n:: B\n",
    "x\n::y\n ::z\n::w",
    "::::\n\n::\n",
    "a::b\n:: c\r\n::d\n",
    "\n\n:: é ✓\ntext ::\n::",
    ":\n::\n:",
    "\\:: a\n\\::b\n::c\n",
    "::a\n::b\n::c\n",
    "no header here",
];

fn char_index(text: &str, byte: usize) -> usize {
    text[..byte].chars().count()
}

fn as_text(v: &[char]) -> String {
    v.iter().collect()
}

#[test]
fn headers_are_where_the_pattern_matches() {
    let pattern = regex::RegexBuilder::new("^::[^\n]*\n").multi_line(true).build().unwrap();
    for text in SAMPLES {
        let v: Vec<char> = text.chars().collect();
        let mut from = 0;
        let mut seen = 0;
        while let Some(m) = pattern.find_at(text, from) {
            let start = char_index(text, m.start());
            let line_start = char_index(text, from);
            assert_eq!(find_header(&v, line_start), start, "{:?} from {}", text, from);
            assert_eq!(find_header(&v, start), start);
            from = m.end();
            seen += 1;
        }
        let rest = char_index(text, from);
        assert_eq!(find_header(&v, rest), v.len(), "{:?} after {} headers", text, seen);
    }
}

#[test]
fn content_is_escaped_where_the_pattern_matches() {
    let pattern = regex::RegexBuilder::new("^::").multi_line(true).build().unwrap();
    for text in SAMPLES {
        let mut out = Vec::new();
        push_content(&mut out, text);
        assert_eq!(as_text(&out), pattern.replace_all(text, "\\::"), "{:?}", text);
    }
}

#[test]
fn content_is_unescaped_where_the_pattern_matches() {
    let pattern = regex::RegexBuilder::new("^\\\\::").multi_line(true).build().unwrap();
    for text in SAMPLES {
        let v: Vec<char> = text.chars().collect();
        assert_eq!(
            as_text(&unescape_content(&v, 0, v.len())),
            pattern.replace_all(text, "::"),
            "{:?}",
            text
        );
    }
}

#[test]
fn escaping_and_unescaping_cancel() {
    for text in ["", "::", "a\n::b\n::::\n", "x ::\n:\n::", "\\\\::a\n\\:\n::"] {
        let mut out = Vec::new();
        push_content(&mut out, text);
        assert_eq!(as_text(&unescape_content(&out, 0, out.len())), text);
    }
}
