//! Testing whether Twee keeps a story: whether writing the story and
//! reading the text gives the same story back.

use vstd::prelude::*;
use crate::json::{Json, JsonMap, JsonValue};
use crate::story::{passages_view, Passage, Story, WarningView};
use crate::text::{chars_of, is_space, is_whitespace, is_word, push_text, string_from_chars,
    strings_view, trim, trim_end, trimmed, trimmed_end};
use crate::twee3::{escapes_header, is_special, read_twee, starts_colons, unescape,
    unescape_content, write_twee};
use crate::twee_laws::{content_faithful, data_body, data_faithful, lemma_twee_round_trip,
    meta_line, meta_text_of, name_faithful, no_escapes, one_line, passage_faithful,
    title_faithful, twee_faithful};

verus! {

/// Whether two texts hold the same characters.
pub fn same_chars(a: &Vec<char>, b: &Vec<char>) -> (r: bool)
    ensures
        r == (a@ == b@),
{
    if a.len() != b.len() {
        return false;
    }
    let mut i: usize = 0;
    while i < a.len()
        invariant
            i <= a@.len(),
            a@.len() == b@.len(),
            forall|j: int| 0 <= j < i ==> a@[j] == b@[j],
        decreases a@.len() - i,
    {
        if a[i] != b[i] {
            return false;
        }
        i += 1;
    }
    assert(a@ =~= b@);
    true
}

/// Whether a text holds no backslash, bracket or brace.
pub fn no_specials(v: &Vec<char>) -> (r: bool)
    ensures
        r == forall|i: int| 0 <= i < v@.len() ==> !is_special(#[trigger] v@[i]),
{
    let mut i: usize = 0;
    while i < v.len()
        invariant
            i <= v@.len(),
            forall|j: int| 0 <= j < i ==> !is_special(#[trigger] v@[j]),
        decreases v@.len() - i,
    {
        let c = v[i];
        if c == '\\' || c == '[' || c == ']' || c == '{' || c == '}' {
            assert(is_special(v@[i as int]));
            return false;
        }
        i += 1;
    }
    true
}

/// Whether no line of a text starts with `::`.
pub fn no_colon_lines(v: &Vec<char>) -> (r: bool)
    ensures
        r == forall|q: int| !starts_colons(v@, q),
{
    let mut i: usize = 0;
    while i < v.len()
        invariant
            i <= v@.len(),
            forall|q: int| q < i ==> !starts_colons(v@, q),
        decreases v@.len() - i,
    {
        let starts = i == 0 || v[i - 1] == '\n';
        if starts && v.len() - i > 1 && v[i] == ':' && v[i + 1] == ':' {
            assert(starts_colons(v@, i as int));
            return false;
        }
        assert(!starts_colons(v@, i as int));
        i += 1;
    }
    true
}

/// Whether no line of a text starts with `\::`.
pub fn no_escape_lines(v: &Vec<char>) -> (r: bool)
    ensures
        r == no_escapes(v@),
{
    let mut i: usize = 0;
    while i < v.len()
        invariant
            i <= v@.len(),
            forall|q: int| q < i ==> !escapes_header(v@, q),
        decreases v@.len() - i,
    {
        let starts = i == 0 || v[i - 1] == '\n';
        if starts && v.len() - i > 2 && v[i] == '\\' && v[i + 1] == ':' && v[i + 2] == ':' {
            assert(escapes_header(v@, i as int));
            return false;
        }
        assert(!escapes_header(v@, i as int));
        i += 1;
    }
    true
}

/// Whether a text holds neither a carriage return nor a line feed.
pub fn on_one_line(v: &Vec<char>) -> (r: bool)
    ensures
        r == one_line(v@),
{
    let mut i: usize = 0;
    while i < v.len()
        invariant
            i <= v@.len(),
            forall|j: int| 0 <= j < i ==> v@[j] != '\r' && v@[j] != '\n',
        decreases v@.len() - i,
    {
        if v[i] == '\r' || v[i] == '\n' {
            return false;
        }
        i += 1;
    }
    true
}

/// Whether every tag is a word.
pub fn tags_are_words(tags: &Vec<String>) -> (r: bool)
    ensures
        r == forall|i: int|
            0 <= i < strings_view(tags@).len() ==> is_word(#[trigger] strings_view(tags@)[i]),
{
    let ghost all = strings_view(tags@);
    let mut i: usize = 0;
    while i < tags.len()
        invariant
            i <= tags@.len(),
            all == strings_view(tags@),
            forall|j: int| 0 <= j < i ==> is_word(#[trigger] all[j]),
        decreases tags@.len() - i,
    {
        let v = chars_of(tags[i].as_str());
        assert(v@ == all[i as int]);
        if v.len() == 0 {
            assert(!is_word(all[i as int]));
            return false;
        }
        let mut k: usize = 0;
        while k < v.len()
            invariant
                k <= v@.len(),
                i < tags@.len(),
                all == strings_view(tags@),
                v@ == all[i as int],
                forall|j: int| 0 <= j < k ==> !is_space(#[trigger] v@[j]),
            decreases v@.len() - k,
        {
            if is_whitespace(v[k]) {
                assert(is_space(all[i as int][k as int]));
                assert(!is_word(all[i as int]));
                return false;
            }
            k += 1;
        }
        assert(is_word(all[i as int]));
        i += 1;
    }
    true
}

/// Whether Twee keeps the title.
pub fn keeps_title(title: &str) -> (r: bool)
    ensures
        r == title_faithful(title@),
{
    let v = chars_of(title);
    v.len() > 0 && same_chars(&trimmed(&v), &v) && no_specials(&v) && no_colon_lines(&v)
}

/// Whether a header line keeps the name.
pub fn keeps_name(name: &str) -> (r: bool)
    ensures
        r == name_faithful(name@),
{
    let v = chars_of(name);
    v.len() > 0 && same_chars(&trimmed(&v), &v) && on_one_line(&v)
}

/// Whether Twee keeps the text of a passage.
pub fn keeps_content(content: &str) -> (r: bool)
    ensures
        r == content_faithful(content@),
{
    let v = chars_of(content);
    same_chars(&trimmed_end(&v), &v) && no_escape_lines(&v)
}

/// Whether a header line keeps the metadata text.
pub fn keeps_meta_line(m: &str) -> (r: bool)
    ensures
        r == meta_line(m@),
{
    let v = chars_of(m);
    if v.len() == 0 || v[0] != '{' {
        return false;
    }
    let mut i: usize = 0;
    while i < v.len()
        invariant
            i <= v@.len(),
            v@ == m@,
            forall|j: int| 0 <= j < i ==> v@[j] != '\n',
        decreases v@.len() - i,
    {
        if v[i] == '\n' {
            return false;
        }
        i += 1;
    }
    true
}

/// Whether `text` reads as the JSON object with the entries `meta`.
pub fn reads_as(text: &str, meta: &JsonMap) -> (r: bool)
    ensures
        r == (crate::json::parsed_json(text@) == Some(Json::Object(meta@))),
{
    match JsonValue::parse(text) {
        Some(v) => v.same(&JsonValue::Object(meta.clone())),
        None => false,
    }
}

/// Whether Twee keeps the passage.
pub fn keeps_passage(p: &Passage) -> (r: bool)
    ensures
        r == passage_faithful(p@),
{
    if !keeps_name(p.name.as_str()) {
        return false;
    }
    if crate::text::same_text(p.name.as_str(), "StoryTitle") || crate::text::same_text(
        p.name.as_str(),
        "StoryData",
    ) {
        return false;
    }
    if !tags_are_words(&p.tags) {
        proof {
            if passage_faithful(p@) {
                assert forall|i: int| 0 <= i < strings_view(p.tags@).len() implies is_word(
                    #[trigger] strings_view(p.tags@)[i],
                ) by {
                    assert(is_word(p@.tags[i]));
                }
            }
        }
        return false;
    }
    if !keeps_content(p.content.as_str()) {
        return false;
    }
    if p.meta.is_empty() {
        let nothing = JsonMap::new();
        reads_as("{}", &nothing)
    } else {
        let m = JsonValue::Object(p.meta.clone()).to_text();
        keeps_meta_line(m.as_str()) && reads_as(m.as_str(), &p.meta)
    }
}

/// Whether Twee keeps the story metadata; `more` says that the story has
/// passages.
pub fn keeps_data(meta: &JsonMap, more: bool) -> (r: bool)
    ensures
        r == data_faithful(meta@, more),
{
    let pretty = JsonValue::Object(meta.clone()).to_text_pretty();
    let mut body = chars_of(pretty.as_str());
    if more {
        body.push('\n');
        body.push('\n');
        body.push('\n');
    } else {
        body.push('\n');
        body.push('\n');
    }
    assert(body@ =~= data_body(meta@, more));
    if !no_colon_lines(&body) {
        return false;
    }
    assert(body@.subrange(0, body@.len() as int) =~= body@);
    let read = string_from_chars(&unescape_content(&body, 0, body.len()));
    reads_as(read.as_str(), meta)
}

/// Whether no two passages have the same name.
pub fn names_differ(passages: &Vec<Passage>) -> (r: bool)
    ensures
        r == forall|i: int, j: int|
            0 <= i < j < passages@.len() ==> (#[trigger] passages_view(passages@)[i]).name != (
            #[trigger] passages_view(passages@)[j]).name,
{
    let ghost all = passages_view(passages@);
    let mut j: usize = 0;
    while j < passages.len()
        invariant
            j <= passages@.len(),
            all == passages_view(passages@),
            forall|a: int, b: int|
                0 <= a < b < j ==> (#[trigger] all[a]).name != (#[trigger] all[b]).name,
        decreases passages@.len() - j,
    {
        let mut i: usize = 0;
        while i < j
            invariant
                i <= j < passages@.len(),
                all == passages_view(passages@),
                forall|a: int| 0 <= a < i ==> (#[trigger] all[a]).name != all[j as int].name,
            decreases j - i,
        {
            if passages[i].name == passages[j].name {
                assert(all[i as int].name == all[j as int].name);
                return false;
            }
            i += 1;
        }
        j += 1;
    }
    true
}

/// Whether Twee keeps the story: whether reading what `serialize_twee3`
/// writes for it gives the same story back, with no warning.
pub fn twee_keeps(story: &Story) -> (ok: bool)
    ensures
        ok == twee_faithful(story@),
        ok ==> read_twee(write_twee(story@)) == (story@, Seq::<WarningView>::empty()),
{
    if !keeps_title(story.title.as_str()) {
        return false;
    }
    if !keeps_data(&story.meta, story.passages.len() > 0) {
        return false;
    }
    let ghost all = passages_view(story.passages@);
    let mut i: usize = 0;
    while i < story.passages.len()
        invariant
            i <= story.passages@.len(),
            all == passages_view(story.passages@),
            forall|j: int| 0 <= j < i ==> passage_faithful(#[trigger] all[j]),
        decreases story.passages@.len() - i,
    {
        if !keeps_passage(&story.passages[i]) {
            assert(!passage_faithful(all[i as int]));
            return false;
        }
        i += 1;
    }
    if !names_differ(&story.passages) {
        return false;
    }
    proof {
        lemma_twee_round_trip(story@);
    }
    true
}

} // verus!
