//! The markup that Twine publishes: a `tw-storydata` element with one
//! `tw-passagedata` child per passage, `style` and `script` children for
//! the story's stylesheet and script, and `tw-tag` children for tag
//! colours.

use vstd::prelude::*;
use crate::assoc::{find_key, lemma_find_key_is, lemma_find_key_none, lemma_upsert_unique, lookup,
    unique_keys, upsert, without};
use crate::json::{Json, JsonMap, JsonValue};
use crate::story::{passages_view, warnings_view, Error, Passage, PassageView, Story, StoryView,
    Warning, WarningView};
use crate::text::{chars_of, decimal, decimal_chars, join, parse_u32, push_chars, read_u32,
    same_text, split_words, string_from_chars, strings_view, words};
use crate::xml::{attributes_view, element_unique, lemma_nodes_unique, node_unique, nodes_unique,
    nodes_view, parsed_document, parsed_nodes, ElementView, MarkupElement, MarkupNode, NodeView};

verus! {

/// The text and character data among the first `n` of `children`, in a
/// row; `None` where there is neither.
pub open spec fn text_upto(children: Seq<NodeView>, n: int) -> Option<Seq<char>>
    decreases n,
{
    if n <= 0 {
        None
    } else {
        let before = text_upto(children, n - 1);
        match children[n - 1] {
            NodeView::Text(t) => Some(
                match before {
                    Some(b) => b + t,
                    None => t,
                },
            ),
            NodeView::CData(t) => Some(
                match before {
                    Some(b) => b + t,
                    None => t,
                },
            ),
            _ => before,
        }
    }
}

/// The text of an element: its text and character data children in a
/// row; `None` where it has neither.
pub open spec fn element_text(e: ElementView) -> Option<Seq<char>> {
    text_upto(e.children, e.children.len() as int)
}

/// The first `tw-storydata` element among the children of `e` from
/// position `i` on and all that is below them, in document order.
pub open spec fn search_children(e: ElementView, i: int) -> Option<ElementView>
    decreases e, e.children.len() - i,
{
    if i < 0 || i >= e.children.len() {
        None
    } else {
        match e.children[i] {
            NodeView::Element(c) => match search_storydata(c) {
                Some(found) => Some(found),
                None => search_children(e, i + 1),
            },
            _ => search_children(e, i + 1),
        }
    }
}

/// The first `tw-storydata` element at or below `e`, in document order.
pub open spec fn search_storydata(e: ElementView) -> Option<ElementView>
    decreases e, e.children.len() + 1,
{
    if e.name == "tw-storydata"@ {
        Some(e)
    } else {
        search_children(e, 0)
    }
}

/// Attributes as metadata: each value a JSON string.  Where a key occurs
/// twice, its first place and its last value count.
pub open spec fn attrs_meta(attrs: Seq<(Seq<char>, Seq<char>)>) -> Seq<(Seq<char>, Json)>
    decreases attrs.len(),
{
    if attrs.len() == 0 {
        Seq::empty()
    } else {
        upsert(attrs_meta(attrs.drop_last()), attrs.last().0, Json::String(attrs.last().1))
    }
}

/// The number by which an element is ordered: its `pid` attribute read as
/// a decimal number, and `u32::MAX` where it has none or it is no number.
pub open spec fn pid_key(e: ElementView) -> u32 {
    match lookup(e.attributes, "pid"@) {
        Some(p) => match parse_u32(p) {
            Some(n) => n,
            None => u32::MAX,
        },
        None => u32::MAX,
    }
}

/// The elements among the first `n` of `children`, in order.
pub open spec fn elements_upto(children: Seq<NodeView>, n: int) -> Seq<ElementView>
    decreases n,
{
    if n <= 0 {
        Seq::empty()
    } else {
        match children[n - 1] {
            NodeView::Element(e) => elements_upto(children, n - 1).push(e),
            _ => elements_upto(children, n - 1),
        }
    }
}

/// `sorted` with `e` put behind every element whose number is no larger
/// than its own.
pub open spec fn insert_by_pid(sorted: Seq<ElementView>, e: ElementView) -> Seq<ElementView>
    decreases sorted.len(),
{
    if sorted.len() == 0 {
        seq![e]
    } else if pid_key(sorted.last()) <= pid_key(e) {
        sorted.push(e)
    } else {
        insert_by_pid(sorted.drop_last(), e).push(sorted.last())
    }
}

/// `elems` in ascending order of `pid_key`; elements with the same number
/// keep their order.
pub open spec fn sort_by_pid(elems: Seq<ElementView>) -> Seq<ElementView>
    decreases elems.len(),
{
    if elems.len() == 0 {
        Seq::empty()
    } else {
        insert_by_pid(sort_by_pid(elems.drop_last()), elems.last())
    }
}

/// Passages as pairs of name and passage, for finding one by its name.
pub open spec fn by_name(passages: Seq<PassageView>) -> Seq<(Seq<char>, PassageView)> {
    Seq::new(passages.len(), |i: int| (passages[i].name, passages[i]))
}

/// The passage that a `tw-passagedata` element holds; `None` where it has
/// no `name` attribute.  Every attribute but `pid`, `name` and `tags` is
/// metadata, the tags are the words of `tags`, and the content is the text
/// of the element, empty where it has none.
pub open spec fn passage_of(n: ElementView) -> Option<PassageView> {
    let m1 = without(attrs_meta(n.attributes), "pid"@);
    let m2 = without(m1, "name"@);
    match lookup(m1, "name"@) {
        Some(Json::String(name)) => Some(
            PassageView {
                name,
                tags: match lookup(m2, "tags"@) {
                    Some(Json::String(t)) => words(t),
                    _ => Seq::empty(),
                },
                meta: without(m2, "tags"@),
                content: match element_text(n) {
                    Some(t) => t,
                    None => Seq::empty(),
                },
            },
        ),
        _ => None,
    }
}

/// `passages` after a `style` or `script` element with the text `text`:
/// the first passage named `name` gets a line feed and the text appended;
/// where there is none, a passage of that name with the one tag `tag` is
/// added.  An element without text changes nothing.
pub open spec fn merge_sheet(
    passages: Seq<PassageView>,
    name: Seq<char>,
    tag: Seq<char>,
    text: Option<Seq<char>>,
) -> Seq<PassageView> {
    match text {
        None => passages,
        Some(t) => match find_key(by_name(passages), name) {
            Some(i) => passages.update(
                i,
                PassageView { content: passages[i].content + seq!['\n'] + t, ..passages[i] },
            ),
            None => passages.push(
                PassageView { name, tags: seq![tag], meta: Seq::empty(), content: t },
            ),
        },
    }
}

/// What has been read of the children of a `tw-storydata` element.
pub struct MarkupRead {
    pub passages: Seq<PassageView>,
    /// The colours of tags, by tag name.
    pub colors: Seq<(Seq<char>, Json)>,
}

/// The state after one more child element.
pub open spec fn absorb(st: MarkupRead, n: ElementView) -> MarkupRead {
    if n.name == "tw-passagedata"@ {
        match passage_of(n) {
            Some(p) => MarkupRead { passages: st.passages.push(p), ..st },
            None => st,
        }
    } else if n.name == "style"@ {
        MarkupRead {
            passages: merge_sheet(
                st.passages,
                "StoryStylesheet"@,
                "stylesheet"@,
                element_text(n),
            ),
            ..st
        }
    } else if n.name == "script"@ {
        MarkupRead {
            passages: merge_sheet(st.passages, "StoryScript"@, "script"@, element_text(n)),
            ..st
        }
    } else if n.name == "tw-tag"@ {
        match (lookup(n.attributes, "name"@), lookup(n.attributes, "color"@)) {
            (Some(k), Some(c)) => MarkupRead { colors: upsert(st.colors, k, Json::String(c)), ..st },
            _ => st,
        }
    } else {
        st
    }
}

/// The state after the first `n` of `elems`.
pub open spec fn absorb_upto(elems: Seq<ElementView>, n: int) -> MarkupRead
    decreases n,
{
    if n <= 0 {
        MarkupRead { passages: Seq::empty(), colors: Seq::empty() }
    } else {
        absorb(absorb_upto(elems, n - 1), elems[n - 1])
    }
}

/// The `name` attribute of the first element among `children` from
/// position `i` on whose `pid` attribute is `pid`; `None` where there is no
/// such element or it has no name.
pub open spec fn start_name(children: Seq<NodeView>, pid: Seq<char>, i: int) -> Option<
    Seq<char>,
>
    decreases children.len() - i,
{
    if i < 0 || i >= children.len() {
        None
    } else {
        match children[i] {
            NodeView::Element(e) => if lookup(e.attributes, "pid"@) == Some(pid) {
                lookup(e.attributes, "name"@)
            } else {
                start_name(children, pid, i + 1)
            },
            _ => start_name(children, pid, i + 1),
        }
    }
}

/// The story metadata of a `tw-storydata` element: its attributes but
/// `hidden`, `name` and `startnode`; under `start` the name of the passage
/// that `startnode` points at, where it points at one; and under
/// `tag-colors` the colours `colors`.
pub open spec fn story_meta(sd: ElementView, colors: Seq<(Seq<char>, Json)>) -> Seq<
    (Seq<char>, Json),
> {
    let m1 = without(without(attrs_meta(sd.attributes), "hidden"@), "name"@);
    let m2 = without(m1, "startnode"@);
    let m3 = match lookup(m1, "startnode"@) {
        Some(Json::String(pid)) => match start_name(sd.children, pid, 0) {
            Some(name) => upsert(m2, "start"@, Json::String(name)),
            None => m2,
        },
        _ => m2,
    };
    upsert(m3, "tag-colors"@, Json::Object(colors))
}

/// The story that a `tw-storydata` element holds, and the warnings of
/// reading it.  The child elements are read in ascending order of their
/// `pid`.  The title is the `name` attribute; a story without one is
/// reported and has an empty title.
pub open spec fn read_storydata(sd: ElementView) -> (StoryView, Seq<WarningView>) {
    let elems = sort_by_pid(elements_upto(sd.children, sd.children.len() as int));
    let read = absorb_upto(elems, elems.len() as int);
    let named = lookup(without(attrs_meta(sd.attributes), "hidden"@), "name"@);
    (
        StoryView {
            title: match named {
                Some(Json::String(t)) => t,
                _ => Seq::empty(),
            },
            passages: read.passages,
            meta: story_meta(sd, read.colors),
        },
        if named is None {
            seq![WarningView::StoryTitleMissing]
        } else {
            Seq::empty()
        },
    )
}

/// The value of the first attribute named `key`.
pub fn attribute<'a>(attrs: &'a Vec<(String, String)>, key: &str) -> (r: Option<&'a String>)
    ensures
        match lookup(attributes_view(attrs@), key@) {
            Some(v) => r is Some && r.unwrap()@ == v,
            None => r is None,
        },
{
    let k = key.to_owned();
    let ghost m = attributes_view(attrs@);
    let mut i: usize = 0;
    while i < attrs.len()
        invariant
            i <= attrs@.len(),
            k@ == key@,
            m == attributes_view(attrs@),
            forall|j: int| 0 <= j < i ==> (#[trigger] m[j]).0 != key@,
        decreases attrs@.len() - i,
    {
        if attrs[i].0 == k {
            proof {
                lemma_find_key_is(m, key@, i as int);
            }
            return Some(&attrs[i].1);
        }
        i += 1;
    }
    proof {
        lemma_find_key_none(m, key@);
    }
    None
}

/// The text of an element: its text and character data children in a row.
pub fn text_content(e: &MarkupElement) -> (r: Option<String>)
    ensures
        match element_text(e@) {
            Some(t) => r is Some && r.unwrap()@ == t,
            None => r is None,
        },
{
    let mut found = false;
    let mut text: Vec<char> = Vec::new();
    let mut i: usize = 0;
    while i < e.children.len()
        invariant
            i <= e.children@.len(),
            match text_upto(e@.children, i as int) {
                Some(t) => found && text@ == t,
                None => !found && text@.len() == 0,
            },
        decreases e.children@.len() - i,
    {
        match &e.children[i] {
            MarkupNode::Text(t) => {
                let ghost before = text@;
                push_chars(&mut text, &chars_of(t.as_str()));
                assert(!found ==> text@ =~= t@);
                found = true;
            },
            MarkupNode::CData(t) => {
                let ghost before = text@;
                push_chars(&mut text, &chars_of(t.as_str()));
                assert(!found ==> text@ =~= t@);
                found = true;
            },
            _ => {},
        }
        i += 1;
    }
    if found {
        Some(string_from_chars(&text))
    } else {
        None
    }
}

/// Finds the first `tw-storydata` element at or below `e`, in document
/// order.
pub fn find_storydata(e: &MarkupElement) -> (r: Option<&MarkupElement>)
    ensures
        match search_storydata(e@) {
            Some(found) => r is Some && r.unwrap()@ == found,
            None => r is None,
        },
    decreases e,
{
    if same_text(e.name.as_str(), "tw-storydata") {
        return Some(e);
    }
    let mut i: usize = 0;
    while i < e.children.len()
        invariant
            i <= e.children@.len(),
            decreases_to!(*e => e.children@),
            e@.name != "tw-storydata"@,
            search_children(e@, i as int) == search_children(e@, 0),
        decreases e.children@.len() - i,
    {
        proof {
            assert(decreases_to!(e.children@ => e.children@[i as int]));
        }
        match &e.children[i] {
            MarkupNode::Element(c) => {
                proof {
                    assert(decreases_to!(e.children@[i as int] => *c));
                    assert(e@.children[i as int] == NodeView::Element(c@));
                }
                match find_storydata(c) {
                    Some(found) => {
                        return Some(found);
                    },
                    None => {},
                }
            },
            _ => {},
        }
        i += 1;
    }
    None
}

/// Attributes as metadata: each value a JSON string.
pub fn metadata_of(attrs: &Vec<(String, String)>) -> (r: JsonMap)
    ensures
        r@ == attrs_meta(attributes_view(attrs@)),
{
    let ghost all = attributes_view(attrs@);
    let mut r = JsonMap::new();
    let mut i: usize = 0;
    while i < attrs.len()
        invariant
            i <= attrs@.len(),
            all == attributes_view(attrs@),
            r@ == attrs_meta(all.take(i as int)),
        decreases attrs@.len() - i,
    {
        assert(all.take(i + 1).drop_last() =~= all.take(i as int));
        r.insert(attrs[i].0.clone(), JsonValue::String(attrs[i].1.clone()));
        i += 1;
    }
    assert(all.take(i as int) =~= all);
    r
}

/// The number by which an element is ordered among its siblings.
pub fn pid_number(e: &MarkupElement) -> (n: u32)
    ensures
        n == pid_key(e@),
{
    match attribute(&e.attributes, "pid") {
        Some(p) => match read_u32(&chars_of(p.as_str())) {
            Some(n) => n,
            None => u32::MAX,
        },
        None => u32::MAX,
    }
}

/// The mathematical form of a list of elements.
pub open spec fn elements_view(elems: Seq<&MarkupElement>) -> Seq<ElementView> {
    Seq::new(elems.len(), |i: int| elems[i]@)
}

/// Where every element from `pos` on has a larger number than `e`, and the
/// one before `pos` has not, `insert_by_pid` puts `e` at `pos`.
pub proof fn lemma_insert_by_pid(sorted: Seq<ElementView>, e: ElementView, pos: int)
    requires
        0 <= pos <= sorted.len(),
        forall|j: int| pos <= j < sorted.len() ==> pid_key(#[trigger] sorted[j]) > pid_key(e),
        pos > 0 ==> pid_key(sorted[pos - 1]) <= pid_key(e),
    ensures
        insert_by_pid(sorted, e) == sorted.insert(pos, e),
    decreases sorted.len(),
{
    if sorted.len() == 0 {
        assert(seq![e] =~= sorted.insert(pos, e));
    } else if pos == sorted.len() {
        assert(sorted.push(e) =~= sorted.insert(pos, e));
    } else {
        assert(pid_key(sorted[sorted.len() - 1]) > pid_key(e));
        let rest = sorted.drop_last();
        assert forall|j: int| pos <= j < rest.len() implies pid_key(#[trigger] rest[j]) > pid_key(
            e,
        ) by {
            assert(rest[j] == sorted[j]);
        }
        if pos > 0 {
            assert(rest[pos - 1] == sorted[pos - 1]);
        }
        lemma_insert_by_pid(rest, e, pos);
        assert(rest.insert(pos, e).push(sorted.last()) =~= sorted.insert(pos, e));
    }
}

/// Whether the numbers of `elems` ascend.
pub open spec fn ascending(elems: Seq<ElementView>) -> bool {
    forall|i: int, j: int|
        0 <= i < j < elems.len() ==> pid_key(#[trigger] elems[i]) <= pid_key(#[trigger] elems[j])
}

/// The elements of `elems` with the number `key`, in order.
pub open spec fn with_key(elems: Seq<ElementView>, key: u32) -> Seq<ElementView>
    decreases elems.len(),
{
    if elems.len() == 0 {
        Seq::empty()
    } else if pid_key(elems.last()) == key {
        with_key(elems.drop_last(), key).push(elems.last())
    } else {
        with_key(elems.drop_last(), key)
    }
}

/// Putting an element into ascending elements leaves them ascending, and
/// puts it behind the elements of its own number.
pub proof fn lemma_insert_ascending(sorted: Seq<ElementView>, e: ElementView, key: u32)
    requires
        ascending(sorted),
    ensures
        ascending(insert_by_pid(sorted, e)),
        insert_by_pid(sorted, e).len() == sorted.len() + 1,
        forall|i: int|
            0 <= i < insert_by_pid(sorted, e).len() ==> #[trigger] insert_by_pid(sorted, e)[i] == e
                || exists|j: int| 0 <= j < sorted.len() && sorted[j] == insert_by_pid(sorted, e)[i],
        with_key(insert_by_pid(sorted, e), key) == if pid_key(e) == key {
            with_key(sorted, key).push(e)
        } else {
            with_key(sorted, key)
        },
    decreases sorted.len(),
{
    let r = insert_by_pid(sorted, e);
    if sorted.len() == 0 {
        assert(r.drop_last() =~= sorted);
    } else if pid_key(sorted.last()) <= pid_key(e) {
        assert(r.drop_last() =~= sorted);
        assert forall|i: int, j: int| 0 <= i < j < r.len() implies pid_key(#[trigger] r[i])
            <= pid_key(#[trigger] r[j]) by {
            assert(r[i] == sorted[i]);
            if j < sorted.len() {
                assert(r[j] == sorted[j]);
            } else {
                assert(pid_key(sorted[i]) <= pid_key(sorted[sorted.len() - 1]));
            }
        }
        assert forall|i: int| 0 <= i < r.len() implies #[trigger] r[i] == e || exists|j: int|
            0 <= j < sorted.len() && sorted[j] == r[i] by {
            if i < sorted.len() {
                assert(sorted[i] == r[i]);
            }
        }
    } else {
        let init = sorted.drop_last();
        let last = sorted.last();
        assert forall|i: int, j: int| 0 <= i < j < init.len() implies pid_key(#[trigger] init[i])
            <= pid_key(#[trigger] init[j]) by {
            assert(init[i] == sorted[i] && init[j] == sorted[j]);
        }
        lemma_insert_ascending(init, e, key);
        let inner = insert_by_pid(init, e);
        assert(r == inner.push(last));
        assert(r.drop_last() =~= inner);
        assert forall|i: int| 0 <= i < r.len() implies #[trigger] r[i] == e || exists|j: int|
            0 <= j < sorted.len() && sorted[j] == r[i] by {
            if i < inner.len() {
                assert(r[i] == inner[i]);
                if inner[i] != e {
                    let j = choose|j: int| 0 <= j < init.len() && init[j] == inner[i];
                    assert(sorted[j] == r[i]);
                }
            } else {
                assert(sorted[sorted.len() - 1] == r[i]);
            }
        }
        assert forall|i: int, j: int| 0 <= i < j < r.len() implies pid_key(#[trigger] r[i])
            <= pid_key(#[trigger] r[j]) by {
            assert(r[i] == inner[i]);
            if j < inner.len() {
                assert(r[j] == inner[j]);
            } else {
                if inner[i] != e {
                    let k = choose|k: int| 0 <= k < init.len() && init[k] == inner[i];
                    assert(init[k] == sorted[k]);
                    assert(pid_key(sorted[k]) <= pid_key(sorted[sorted.len() - 1]));
                }
            }
        }
        assert(with_key(sorted, key) == if pid_key(last) == key {
            with_key(init, key).push(last)
        } else {
            with_key(init, key)
        });
    }
}

/// Reading order is sorted order: the numbers ascend, and the elements of
/// any one number stand in the order in which they stood before.
pub proof fn lemma_sort_by_pid(elems: Seq<ElementView>, key: u32)
    ensures
        sort_by_pid(elems).len() == elems.len(),
        ascending(sort_by_pid(elems)),
        with_key(sort_by_pid(elems), key) == with_key(elems, key),
    decreases elems.len(),
{
    if elems.len() > 0 {
        lemma_sort_by_pid(elems.drop_last(), key);
        lemma_insert_ascending(sort_by_pid(elems.drop_last()), elems.last(), key);
    }
}

/// The child elements of `e` in ascending order of their `pid`; children
/// with the same number, and those without one, keep their order.
pub fn children_by_pid(e: &MarkupElement) -> (r: Vec<&MarkupElement>)
    ensures
        elements_view(r@) == sort_by_pid(elements_upto(e@.children, e@.children.len() as int)),
{
    let mut sorted: Vec<&MarkupElement> = Vec::new();
    let mut keys: Vec<u32> = Vec::new();
    let mut i: usize = 0;
    assert(elements_view(sorted@) =~= Seq::<ElementView>::empty());
    while i < e.children.len()
        invariant
            i <= e.children@.len(),
            keys@.len() == sorted@.len(),
            forall|j: int| 0 <= j < keys@.len() ==> keys@[j] == pid_key(#[trigger] sorted@[j]@),
            elements_view(sorted@) == sort_by_pid(elements_upto(e@.children, i as int)),
        decreases e.children@.len() - i,
    {
        match &e.children[i] {
            MarkupNode::Element(c) => {
                let key = pid_number(c);
                let mut pos: usize = sorted.len();
                while pos > 0 && keys[pos - 1] > key
                    invariant
                        pos <= sorted@.len(),
                        keys@.len() == sorted@.len(),
                        key == pid_key(c@),
                        forall|j: int|
                            0 <= j < keys@.len() ==> keys@[j] == pid_key(#[trigger] sorted@[j]@),
                        forall|j: int| pos <= j < keys@.len() ==> keys@[j] > key,
                    decreases pos,
                {
                    pos -= 1;
                }
                proof {
                    let before = elements_view(sorted@);
                    assert forall|j: int| pos <= j < before.len() implies pid_key(
                        #[trigger] before[j],
                    ) > pid_key(c@) by {
                        assert(keys@[j] == pid_key(sorted@[j]@));
                    }
                    if pos > 0 {
                        assert(keys@[pos - 1] == pid_key(sorted@[pos - 1]@));
                    }
                    lemma_insert_by_pid(before, c@, pos as int);
                    assert(elements_upto(e@.children, i + 1) == elements_upto(
                        e@.children,
                        i as int,
                    ).push(c@));
                    assert(elements_upto(e@.children, i + 1).drop_last() =~= elements_upto(
                        e@.children,
                        i as int,
                    ));
                }
                let ghost before = sorted@;
                sorted.insert(pos, c);
                keys.insert(pos, key);
                assert(elements_view(sorted@) =~= elements_view(before).insert(pos as int, c@));
            },
            _ => {},
        }
        i += 1;
    }
    sorted
}

/// The children of a `tw-storydata` element in the reading: the passages
/// so far and the tag colours so far.
#[derive(Debug)]
pub struct MarkupReader {
    pub passages: Vec<Passage>,
    /// The colours of tags, by tag name.
    pub colors: JsonMap,
}

impl View for MarkupReader {
    type V = MarkupRead;

    open spec fn view(&self) -> MarkupRead {
        MarkupRead { passages: passages_view(self.passages@), colors: self.colors@ }
    }
}

/// The passage that a `tw-passagedata` element holds.
pub fn passage_from(n: &MarkupElement) -> (r: Option<Passage>)
    ensures
        match passage_of(n@) {
            Some(p) => r is Some && r.unwrap()@ == p,
            None => r is None,
        },
{
    let mut meta = metadata_of(&n.attributes);
    meta.remove("pid");
    match meta.remove("name") {
        Some(JsonValue::String(name)) => {
            let tags = match meta.remove("tags") {
                Some(JsonValue::String(t)) => split_words(&chars_of(t.as_str())),
                _ => {
                    let none: Vec<String> = Vec::new();
                    assert(strings_view(none@) =~= Seq::<Seq<char>>::empty());
                    none
                },
            };
            let content = match text_content(n) {
                Some(t) => t,
                None => String::new(),
            };
            Some(Passage { name, tags, meta, content })
        },
        _ => None,
    }
}

/// Takes the text of a `style` or `script` element into `passages`.
pub fn merge_text(passages: &mut Vec<Passage>, name: &str, tag: &str, text: Option<String>)
    ensures
        passages_view(final(passages)@) == merge_sheet(
            passages_view(old(passages)@),
            name@,
            tag@,
            match text {
                Some(t) => Some(t@),
                None => None,
            },
        ),
{
    let t = match text {
        Some(t) => t,
        None => {
            return ;
        },
    };
    let ghost before = passages_view(passages@);
    let wanted = name.to_owned();
    let mut i: usize = 0;
    while i < passages.len()
        invariant
            i <= passages@.len(),
            wanted@ == name@,
            text == Some(t),
            *passages == *old(passages),
            before == passages_view(passages@),
            forall|j: int| 0 <= j < i ==> (#[trigger] by_name(before)[j]).0 != name@,
        decreases passages@.len() - i,
    {
        if passages[i].name == wanted {
            proof {
                lemma_find_key_is(by_name(before), name@, i as int);
            }
            let ghost held = passages@;
            let Passage { name: found, tags, meta, content } = passages.remove(i);
            let mut joined = chars_of(content.as_str());
            joined.push('\n');
            push_chars(&mut joined, &chars_of(t.as_str()));
            assert(joined@ =~= content@ + seq!['\n'] + t@);
            let merged = Passage { name: found, tags, meta, content: string_from_chars(&joined) };
            passages.insert(i, merged);
            assert(passages@ =~= held.update(i as int, merged));
            assert(merged@ == (PassageView {
                content: before[i as int].content + seq!['\n'] + t@,
                ..before[i as int]
            }));
            assert(passages_view(passages@) =~= before.update(
                i as int,
                PassageView {
                    content: before[i as int].content + seq!['\n'] + t@,
                    ..before[i as int]
                },
            ));
            return ;
        }
        i += 1;
    }
    proof {
        lemma_find_key_none(by_name(before), name@);
    }
    let mut tags: Vec<String> = Vec::new();
    tags.push(tag.to_owned());
    assert(strings_view(tags@) =~= seq![tag@]);
    let p = Passage { name: wanted, tags, meta: JsonMap::new(), content: t };
    passages.push(p);
    assert(passages_view(passages@) =~= before.push(p@));
}

impl MarkupReader {
    /// A reader that has read nothing.
    pub fn new() -> (r: MarkupReader)
        ensures
            r@ == (MarkupRead { passages: Seq::empty(), colors: Seq::empty() }),
    {
        let r = MarkupReader { passages: Vec::new(), colors: JsonMap::new() };
        assert(passages_view(r.passages@) =~= Seq::<PassageView>::empty());
        r
    }

    /// Takes in one child element of `tw-storydata`.
    pub fn absorb(&mut self, n: &MarkupElement)
        ensures
            final(self)@ == absorb(old(self)@, n@),
    {
        if same_text(n.name.as_str(), "tw-passagedata") {
            match passage_from(n) {
                Some(p) => {
                    let ghost before = self.passages@;
                    self.passages.push(p);
                    assert(passages_view(self.passages@) =~= passages_view(before).push(p@));
                },
                None => {},
            }
        } else if same_text(n.name.as_str(), "style") {
            merge_text(&mut self.passages, "StoryStylesheet", "stylesheet", text_content(n));
        } else if same_text(n.name.as_str(), "script") {
            merge_text(&mut self.passages, "StoryScript", "script", text_content(n));
        } else if same_text(n.name.as_str(), "tw-tag") {
            match (attribute(&n.attributes, "name"), attribute(&n.attributes, "color")) {
                (Some(k), Some(c)) => {
                    self.colors.insert(k.clone(), JsonValue::String(c.clone()));
                },
                _ => {},
            }
        }
    }
}

/// The name of the passage that `startnode` points at.
pub fn find_start(children: &Vec<MarkupNode>, pid: &String) -> (r: Option<String>)
    ensures
        match start_name(nodes_view(children@), pid@, 0) {
            Some(n) => r is Some && r.unwrap()@ == n,
            None => r is None,
        },
{
    let ghost all = nodes_view(children@);
    let mut i: usize = 0;
    while i < children.len()
        invariant
            i <= children@.len(),
            all == nodes_view(children@),
            start_name(all, pid@, i as int) == start_name(all, pid@, 0),
        decreases children@.len() - i,
    {
        match &children[i] {
            MarkupNode::Element(e) => {
                assert(all[i as int] == NodeView::Element(e@));
                let hit = match attribute(&e.attributes, "pid") {
                    Some(p) => *p == *pid,
                    None => false,
                };
                if hit {
                    return match attribute(&e.attributes, "name") {
                        Some(n) => Some(n.clone()),
                        None => None,
                    };
                }
            },
            _ => {},
        }
        i += 1;
    }
    None
}

/// Reads the story that a `tw-storydata` element holds.
pub fn parse_element(storydata: &MarkupElement) -> (r: (Story, Vec<Warning>))
    ensures
        (r.0@, warnings_view(r.1@)) == read_storydata(storydata@),
{
    let elems = children_by_pid(storydata);
    let mut reader = MarkupReader::new();
    let mut i: usize = 0;
    while i < elems.len()
        invariant
            i <= elems@.len(),
            reader@ == absorb_upto(elements_view(elems@), i as int),
        decreases elems@.len() - i,
    {
        reader.absorb(elems[i]);
        i += 1;
    }
    let MarkupReader { passages, colors } = reader;
    let mut warnings: Vec<Warning> = Vec::new();
    let mut meta = metadata_of(&storydata.attributes);
    meta.remove("hidden");
    let title = match meta.remove("name") {
        Some(JsonValue::String(t)) => t,
        Some(_) => String::new(),
        None => {
            warnings.push(Warning::StoryTitleMissing);
            String::new()
        },
    };
    match meta.remove("startnode") {
        Some(JsonValue::String(pid)) => {
            match find_start(&storydata.children, &pid) {
                Some(name) => {
                    meta.insert("start".to_owned(), JsonValue::String(name));
                },
                None => {},
            }
        },
        _ => {},
    }
    meta.insert("tag-colors".to_owned(), JsonValue::Object(colors));
    proof {
        let named = lookup(without(attrs_meta(storydata@.attributes), "hidden"@), "name"@);
        if named is None {
            assert(warnings_view(warnings@) =~= seq![WarningView::StoryTitleMissing]);
        } else {
            assert(warnings_view(warnings@) =~= Seq::<WarningView>::empty());
        }
    }
    (Story { title, passages, meta }, warnings)
}

/// What a document holds: the story of its first `tw-storydata` element;
/// `None` where it has none.
pub open spec fn read_document(root: ElementView) -> Option<(StoryView, Seq<WarningView>)> {
    match search_storydata(root) {
        Some(sd) => Some(read_storydata(sd)),
        None => None,
    }
}

/// Reads the story of a document's first `tw-storydata` element.  Fails
/// with `HTMLStoryDataNotFound` exactly where the document has none.
pub fn story_from_document(root: &MarkupElement) -> (r: Result<(Story, Vec<Warning>), Error>)
    ensures
        match read_document(root@) {
            Some(read) => r matches Ok(pair) && (pair.0@, warnings_view(pair.1@)) == read,
            None => r matches Err(Error::HTMLStoryDataNotFound),
        },
{
    match find_storydata(root) {
        Some(sd) => Ok(parse_element(sd)),
        None => Err(Error::HTMLStoryDataNotFound),
    }
}

/// Parses a published Twine HTML file into a [`Story`], looking for a
/// `tw-storydata` element.  Fails with `HTMLParseError` exactly where the
/// markup is not well-formed, and with `HTMLStoryDataNotFound` exactly
/// where it is but holds no such element.
pub fn parse_html(source: &str) -> (r: Result<(Story, Vec<Warning>), Error>)
    ensures
        match parsed_document(source@) {
            Some(root) => match read_document(root) {
                Some(read) => r matches Ok(pair) && (pair.0@, warnings_view(pair.1@)) == read,
                None => r matches Err(Error::HTMLStoryDataNotFound),
            },
            None => r matches Err(Error::HTMLParseError(_)),
        },
{
    match MarkupElement::parse(source) {
        Ok(root) => story_from_document(&root),
        Err(e) => Err(Error::HTMLParseError(e)),
    }
}

/// The stories of the first `n` of `nodes`, each read as a `tw-storydata`
/// element; `None` where one of them is no element.
pub open spec fn read_nodes(nodes: Seq<NodeView>, n: int) -> Option<
    Seq<(StoryView, Seq<WarningView>)>,
>
    decreases n,
{
    if n <= 0 {
        Some(Seq::empty())
    } else {
        match (read_nodes(nodes, n - 1), nodes[n - 1]) {
            (Some(before), NodeView::Element(e)) => Some(before.push(read_storydata(e))),
            _ => None,
        }
    }
}

/// The mathematical form of a list of stories with their warnings.
pub open spec fn stories_view(v: Seq<(Story, Vec<Warning>)>) -> Seq<
    (StoryView, Seq<WarningView>),
> {
    Seq::new(v.len(), |i: int| (v[i].0@, warnings_view(v[i].1@)))
}

/// Reads every node as a `tw-storydata` element.  Fails with
/// `HTMLStoryDataNotFound` exactly where one of the nodes is no element.
pub fn stories_from_nodes(nodes: &Vec<MarkupNode>) -> (r: Result<
    Vec<(Story, Vec<Warning>)>,
    Error,
>)
    ensures
        match read_nodes(nodes_view(nodes@), nodes@.len() as int) {
            Some(stories) => r matches Ok(v) && stories_view(v@) == stories,
            None => r matches Err(Error::HTMLStoryDataNotFound),
        },
{
    let ghost all = nodes_view(nodes@);
    let mut out: Vec<(Story, Vec<Warning>)> = Vec::new();
    let mut i: usize = 0;
    assert(stories_view(out@) =~= Seq::<(StoryView, Seq<WarningView>)>::empty());
    while i < nodes.len()
        invariant
            i <= nodes@.len(),
            all == nodes_view(nodes@),
            read_nodes(all, i as int) == Some(stories_view(out@)),
        decreases nodes@.len() - i,
    {
        match &nodes[i] {
            MarkupNode::Element(e) => {
                assert(all[i as int] == NodeView::Element(e@));
                let pair = parse_element(e);
                let ghost before = out@;
                out.push(pair);
                assert(stories_view(out@) =~= stories_view(before).push(
                    (pair.0@, warnings_view(pair.1@)),
                ));
            },
            _ => {
                proof {
                    assert(read_nodes(all, i + 1) is None);
                    lemma_read_nodes_none(all, i + 1, nodes@.len() as int);
                }
                return Err(Error::HTMLStoryDataNotFound);
            },
        }
        i += 1;
    }
    Ok(out)
}

/// Once a node has failed, every longer reading fails.
pub proof fn lemma_read_nodes_none(nodes: Seq<NodeView>, n: int, m: int)
    requires
        0 <= n <= m,
        read_nodes(nodes, n) is None,
    ensures
        read_nodes(nodes, m) is None,
    decreases m - n,
{
    if n < m {
        lemma_read_nodes_none(nodes, n, m - 1);
    }
}

/// Parses a Twine archive, a list of `tw-storydata` elements, into a list
/// of [`Story`]s.  Fails with `HTMLParseError` exactly where the markup is
/// not well-formed, and with `HTMLStoryDataNotFound` exactly where it is
/// but a node at its top level is no element.
pub fn parse_archive(source: &str) -> (r: Result<Vec<(Story, Vec<Warning>)>, Error>)
    ensures
        match parsed_nodes(source@) {
            Some(nodes) => match read_nodes(nodes, nodes.len() as int) {
                Some(stories) => r matches Ok(v) && stories_view(v@) == stories,
                None => r matches Err(Error::HTMLStoryDataNotFound),
            },
            None => r matches Err(Error::HTMLParseError(_)),
        },
{
    match MarkupElement::parse_all(source) {
        Ok(nodes) => stories_from_nodes(&nodes),
        Err(e) => Err(Error::HTMLParseError(e)),
    }
}

/// Whether `n` is an element named `name`.
pub open spec fn is_named(n: NodeView, name: Seq<char>) -> bool {
    n matches NodeView::Element(e) && e.name == name
}

/// The position of the first element named `name` among `children`.
pub open spec fn child_named(children: Seq<NodeView>, name: Seq<char>) -> Option<int>
    decreases children.len(),
{
    if children.len() == 0 {
        None
    } else if child_named(children.drop_last(), name) is Some {
        child_named(children.drop_last(), name)
    } else if is_named(children.last(), name) {
        Some(children.len() - 1)
    } else {
        None
    }
}

/// `child_named` returns the least position that holds an element of the
/// name, and `None` exactly when no position does.
pub proof fn lemma_child_named(children: Seq<NodeView>, name: Seq<char>)
    ensures
        match child_named(children, name) {
            Some(i) => 0 <= i < children.len() && is_named(children[i], name) && forall|j: int|
                0 <= j < i ==> !is_named(#[trigger] children[j], name),
            None => forall|j: int| 0 <= j < children.len() ==> !is_named(
                #[trigger] children[j],
                name,
            ),
        },
    decreases children.len(),
{
    if children.len() > 0 {
        lemma_child_named(children.drop_last(), name);
        assert(forall|j: int|
            0 <= j < children.len() - 1 ==> children.drop_last()[j] == children[j]);
    }
}

/// The `style` or `script` element of one passage: the three attributes
/// that mark it as the user's, and the passage text.
pub open spec fn sheet_element(
    name: Seq<char>,
    role: Seq<char>,
    id: Seq<char>,
    kind: Seq<char>,
    content: Seq<char>,
) -> ElementView {
    ElementView {
        name,
        attributes: seq![("role"@, role), ("id"@, id), ("type"@, kind)],
        children: seq![NodeView::Text(content)],
    }
}

/// `children` after a stylesheet or script passage: the first element
/// named `name` gets a line feed and the passage text as two more text
/// children; where there is none, such an element is added.
pub open spec fn add_sheet(
    children: Seq<NodeView>,
    name: Seq<char>,
    role: Seq<char>,
    id: Seq<char>,
    kind: Seq<char>,
    content: Seq<char>,
) -> Seq<NodeView> {
    match child_named(children, name) {
        Some(i) => children.update(
            i,
            NodeView::Element(
                ElementView {
                    children: children[i]->Element_0.children.push(
                        NodeView::Text(seq!['\n']),
                    ).push(NodeView::Text(content)),
                    ..children[i]->Element_0
                },
            ),
        ),
        None => children.push(NodeView::Element(sheet_element(name, role, id, kind, content))),
    }
}

/// `attrs` with the first `n` entries of `meta` set as attributes, as far
/// as their values are strings.
pub open spec fn with_strings(
    attrs: Seq<(Seq<char>, Seq<char>)>,
    meta: Seq<(Seq<char>, Json)>,
    n: int,
) -> Seq<(Seq<char>, Seq<char>)>
    decreases n,
{
    if n <= 0 {
        attrs
    } else {
        match meta[n - 1].1 {
            Json::String(s) => upsert(with_strings(attrs, meta, n - 1), meta[n - 1].0, s),
            _ => with_strings(attrs, meta, n - 1),
        }
    }
}

/// The `tw-passagedata` element of a passage with the number `pid`: the
/// number, the name and the tags joined by spaces as attributes, then the
/// metadata whose values are strings; the text as the one child.
pub open spec fn passage_element(p: PassageView, pid: nat) -> ElementView {
    ElementView {
        name: "tw-passagedata"@,
        attributes: with_strings(
            seq![("pid"@, decimal(pid)), ("name"@, p.name), ("tags"@, join(p.tags, seq![' ']))],
            p.meta,
            p.meta.len() as int,
        ),
        children: seq![NodeView::Text(p.content)],
    }
}

/// The children of `tw-storydata` in the writing.
pub struct MarkupWrite {
    pub children: Seq<NodeView>,
    /// How many passages have been given a number.
    pub count: nat,
}

/// The state after one more passage.  A passage tagged `stylesheet` goes
/// into the `style` element, one tagged `script` into the `script`
/// element; any other becomes a `tw-passagedata` element with the next
/// number.
pub open spec fn write_passage(st: MarkupWrite, p: PassageView) -> MarkupWrite {
    if p.tags.contains("stylesheet"@) {
        MarkupWrite {
            children: add_sheet(
                st.children,
                "style"@,
                "stylesheet"@,
                "twine-user-stylesheet"@,
                "text/twine-css"@,
                p.content,
            ),
            ..st
        }
    } else if p.tags.contains("script"@) {
        MarkupWrite {
            children: add_sheet(
                st.children,
                "script"@,
                "script"@,
                "twine-user-script"@,
                "text/twine-javascript"@,
                p.content,
            ),
            ..st
        }
    } else {
        MarkupWrite {
            children: st.children.push(NodeView::Element(passage_element(p, st.count + 1))),
            count: st.count + 1,
        }
    }
}

/// The state after the first `n` of `passages`.
pub open spec fn write_passages(passages: Seq<PassageView>, n: int) -> MarkupWrite
    decreases n,
{
    if n <= 0 {
        MarkupWrite { children: Seq::empty(), count: 0 }
    } else {
        write_passage(write_passages(passages, n - 1), passages[n - 1])
    }
}

/// The `pid` attribute of the first `tw-passagedata` element among
/// `children` from position `i` on whose `name` attribute is `name`;
/// `None` where there is no such element.
pub open spec fn start_pid(children: Seq<NodeView>, name: Seq<char>, i: int) -> Option<
    Seq<char>,
>
    decreases children.len() - i,
{
    if i < 0 || i >= children.len() {
        None
    } else {
        match children[i] {
            NodeView::Element(e) => if e.name == "tw-passagedata"@ && lookup(
                e.attributes,
                "name"@,
            ) == Some(name) {
                lookup(e.attributes, "pid"@)
            } else {
                start_pid(children, name, i + 1)
            },
            _ => start_pid(children, name, i + 1),
        }
    }
}

/// The `tw-tag` element of one tag colour.
pub open spec fn tag_element(name: Seq<char>, color: Seq<char>) -> ElementView {
    ElementView {
        name: "tw-tag"@,
        attributes: seq![("name"@, name), ("color"@, color)],
        children: Seq::empty(),
    }
}

/// `children` with a `tw-tag` element put in front for each of the first
/// `n` of `colors` whose value is a string: the last colour comes first.
pub open spec fn with_tags(children: Seq<NodeView>, colors: Seq<(Seq<char>, Json)>, n: int) -> Seq<
    NodeView,
>
    decreases n,
{
    if n <= 0 {
        children
    } else {
        match colors[n - 1].1 {
            Json::String(c) => seq![NodeView::Element(tag_element(colors[n - 1].0, c))]
                + with_tags(children, colors, n - 1),
            _ => with_tags(children, colors, n - 1),
        }
    }
}

/// `sd` after one entry of the story metadata.  `start` names the passage
/// whose number becomes `startnode`; `tag-colors` holds the tag colours;
/// every other entry with a string value becomes an attribute.  Values of
/// another kind are dropped.
pub open spec fn apply_meta(sd: ElementView, key: Seq<char>, value: Json) -> ElementView {
    if key == "start"@ {
        match value {
            Json::String(name) => match start_pid(sd.children, name, 0) {
                Some(pid) => ElementView {
                    attributes: upsert(sd.attributes, "startnode"@, pid),
                    ..sd
                },
                None => sd,
            },
            _ => sd,
        }
    } else if key == "tag-colors"@ {
        match value {
            Json::Object(colors) => ElementView {
                children: with_tags(sd.children, colors, colors.len() as int),
                ..sd
            },
            _ => sd,
        }
    } else {
        match value {
            Json::String(s) => ElementView { attributes: upsert(sd.attributes, key, s), ..sd },
            _ => sd,
        }
    }
}

/// `sd` after the first `n` entries of `meta`.
pub open spec fn apply_meta_upto(sd: ElementView, meta: Seq<(Seq<char>, Json)>, n: int) -> ElementView
    decreases n,
{
    if n <= 0 {
        sd
    } else {
        apply_meta(apply_meta_upto(sd, meta, n - 1), meta[n - 1].0, meta[n - 1].1)
    }
}

/// A story as a `tw-storydata` element: the title as `name`, the passages
/// in order, then the story metadata applied entry by entry.
pub open spec fn write_storydata(story: StoryView) -> ElementView {
    apply_meta_upto(
        ElementView {
            name: "tw-storydata"@,
            attributes: seq![("name"@, story.title)],
            children: write_passages(story.passages, story.passages.len() as int).children,
        },
        story.meta,
        story.meta.len() as int,
    )
}

/// Whether none of `nodes` holds an element with two attributes of one
/// name.
pub open spec fn all_unique(nodes: Seq<NodeView>) -> bool {
    forall|i: int| 0 <= i < nodes.len() ==> node_unique(#[trigger] nodes[i])
}

/// Sets the attribute `key` to `value`: in place where there is one of
/// that name, at the end where there is none.
pub fn set_attribute(attrs: &mut Vec<(String, String)>, key: String, value: String)
    ensures
        attributes_view(final(attrs)@) == upsert(attributes_view(old(attrs)@), key@, value@),
        unique_keys(attributes_view(old(attrs)@)) ==> unique_keys(attributes_view(final(attrs)@)),
{
    let ghost before = attributes_view(attrs@);
    proof {
        if unique_keys(before) {
            lemma_upsert_unique(before, key@, value@);
        }
    }
    let mut i: usize = 0;
    while i < attrs.len()
        invariant
            i <= attrs@.len(),
            *attrs == *old(attrs),
            before == attributes_view(attrs@),
            forall|j: int| 0 <= j < i ==> (#[trigger] before[j]).0 != key@,
        decreases attrs@.len() - i,
    {
        if attrs[i].0 == key {
            proof {
                lemma_find_key_is(before, key@, i as int);
            }
            attrs.set(i, (key, value));
            assert(attributes_view(attrs@) =~= before.update(i as int, (key@, value@)));
            return ;
        }
        i += 1;
    }
    proof {
        lemma_find_key_none(before, key@);
    }
    attrs.push((key, value));
    assert(attributes_view(attrs@) =~= before.push((key@, value@)));
}

/// Whether one of `tags` is `tag`.
pub fn has_tag(tags: &Vec<String>, tag: &str) -> (b: bool)
    ensures
        b == strings_view(tags@).contains(tag@),
{
    let wanted = tag.to_owned();
    let mut i: usize = 0;
    while i < tags.len()
        invariant
            i <= tags@.len(),
            wanted@ == tag@,
            forall|j: int| 0 <= j < i ==> strings_view(tags@)[j] != tag@,
        decreases tags@.len() - i,
    {
        if tags[i] == wanted {
            assert(strings_view(tags@)[i as int] == tag@);
            return true;
        }
        i += 1;
    }
    false
}

/// The texts of `parts` in a row, with `sep` between each two.
pub fn join_strings(parts: &Vec<String>, sep: &str) -> (r: String)
    ensures
        r@ == join(strings_view(parts@), sep@),
{
    let ghost all = strings_view(parts@);
    let mut out: Vec<char> = Vec::new();
    let mut i: usize = 0;
    assert(out@ =~= join(all.take(0), sep@));
    while i < parts.len()
        invariant
            i <= parts@.len(),
            all == strings_view(parts@),
            out@ == join(all.take(i as int), sep@),
        decreases parts@.len() - i,
    {
        assert(all.take(i + 1).drop_last() =~= all.take(i as int));
        if i > 0 {
            push_chars(&mut out, &chars_of(sep));
        }
        push_chars(&mut out, &chars_of(parts[i].as_str()));
        proof {
            if i == 0 {
                assert(all.take(1)[0] == all[0]);
                assert(out@ =~= all[0]);
            }
        }
        i += 1;
    }
    assert(all.take(i as int) =~= all);
    string_from_chars(&out)
}

/// Puts a stylesheet or script passage into `children`.
pub fn push_sheet(
    children: &mut Vec<MarkupNode>,
    name: &str,
    role: &str,
    id: &str,
    kind: &str,
    content: &String,
)
    ensures
        nodes_view(final(children)@) == add_sheet(
            nodes_view(old(children)@),
            name@,
            role@,
            id@,
            kind@,
            content@,
        ),
        all_unique(nodes_view(old(children)@)) ==> all_unique(nodes_view(final(children)@)),
{
    let ghost before = nodes_view(children@);
    let mut i: usize = 0;
    while i < children.len()
        invariant
            i <= children@.len(),
            *children == *old(children),
            before == nodes_view(children@),
            forall|j: int| 0 <= j < i ==> !is_named(#[trigger] before[j], name@),
        decreases children@.len() - i,
    {
        let hit = match &children[i] {
            MarkupNode::Element(e) => same_text(e.name.as_str(), name),
            _ => false,
        };
        if hit {
            proof {
                lemma_child_named(before, name@);
                assert(is_named(before[i as int], name@));
            }
            let ghost held = children@;
            match children.remove(i) {
                MarkupNode::Element(e) => {
                    let MarkupElement { name: found, attributes, children: mut inner } = e;
                    let ghost inner_before = nodes_view(inner@);
                    inner.push(MarkupNode::Text("\n".to_owned()));
                    inner.push(MarkupNode::Text(content.clone()));
                    proof {
                        reveal_strlit("\n");
                        assert("\n"@ =~= seq!['\n']);
                        assert(nodes_view(inner@) =~= inner_before.push(
                            NodeView::Text(seq!['\n']),
                        ).push(NodeView::Text(content@)));
                    }
                    let merged = MarkupNode::Element(
                        MarkupElement { name: found, attributes, children: inner },
                    );
                    children.insert(i, merged);
                    assert(children@ =~= held.update(i as int, merged));
                    assert(nodes_view(children@) =~= before.update(i as int, merged@));
                    proof {
                        if all_unique(before) {
                            let y = merged@->Element_0;
                            assert(node_unique(before[i as int]));
                            lemma_nodes_unique(inner_before, inner_before.len() as int);
                            lemma_nodes_unique(y.children, y.children.len() as int);
                            assert forall|j: int| 0 <= j < y.children.len() implies node_unique(
                                #[trigger] y.children[j],
                            ) by {
                                if j < inner_before.len() {
                                    assert(y.children[j] == inner_before[j]);
                                }
                            }
                            assert(element_unique(y));
                            let after = nodes_view(children@);
                            assert forall|j: int| 0 <= j < after.len() implies node_unique(
                                #[trigger] after[j],
                            ) by {
                                if j != i {
                                    assert(after[j] == before[j]);
                                }
                            }
                        }
                    }
                },
                other => {
                    children.insert(i, other);
                    assert(children@ =~= held);
                },
            }
            return ;
        }
        i += 1;
    }
    proof {
        lemma_child_named(before, name@);
    }
    let mut attributes: Vec<(String, String)> = Vec::new();
    attributes.push(("role".to_owned(), role.to_owned()));
    attributes.push(("id".to_owned(), id.to_owned()));
    attributes.push(("type".to_owned(), kind.to_owned()));
    let mut inner: Vec<MarkupNode> = Vec::new();
    inner.push(MarkupNode::Text(content.clone()));
    let e = MarkupElement { name: name.to_owned(), attributes, children: inner };
    assert(e@.attributes =~= seq![("role"@, role@), ("id"@, id@), ("type"@, kind@)]);
    assert(e@.children =~= seq![NodeView::Text(content@)]);
    children.push(MarkupNode::Element(e));
    assert(nodes_view(children@) =~= before.push(NodeView::Element(e@)));
    proof {
        crate::markup_laws::lemma_markup_names();
        lemma_nodes_unique(e@.children, 1);
        assert(element_unique(e@));
        if all_unique(before) {
            let after = nodes_view(children@);
            assert forall|j: int| 0 <= j < after.len() implies node_unique(#[trigger] after[j]) by {
                if j < before.len() {
                    assert(after[j] == before[j]);
                }
            }
        }
    }
}

/// The `tw-passagedata` element of a passage with the number `pid`.
pub fn passage_to_element(p: &Passage, pid: u64) -> (e: MarkupElement)
    ensures
        e@ == passage_element(p@, pid as nat),
        element_unique(e@),
{
    let mut attributes: Vec<(String, String)> = Vec::new();
    attributes.push(("pid".to_owned(), string_from_chars(&decimal_chars(pid))));
    attributes.push(("name".to_owned(), p.name.clone()));
    attributes.push(("tags".to_owned(), join_strings(&p.tags, " ")));
    proof {
        reveal_strlit(" ");
        assert(" "@ =~= seq![' ']);
        assert(attributes_view(attributes@) =~= seq![
            ("pid"@, decimal(pid as nat)),
            ("name"@, p@.name),
            ("tags"@, join(p@.tags, seq![' '])),
        ]);
    }
    let ghost first = attributes_view(attributes@);
    proof {
        crate::markup_laws::lemma_markup_names();
        assert(unique_keys(first));
    }
    let entries = p.meta.entries();
    let mut i: usize = 0;
    while i < entries.len()
        invariant
            i <= entries@.len(),
            crate::json::entries_view(entries@) == p@.meta,
            unique_keys(attributes_view(attributes@)),
            attributes_view(attributes@) == with_strings(first, p@.meta, i as int),
        decreases entries@.len() - i,
    {
        assert(p@.meta[i as int] == (entries@[i as int].0@, entries@[i as int].1@));
        match &entries[i].1 {
            JsonValue::String(s) => {
                set_attribute(&mut attributes, entries[i].0.clone(), s.clone());
            },
            _ => {},
        }
        i += 1;
    }
    let mut children: Vec<MarkupNode> = Vec::new();
    children.push(MarkupNode::Text(p.content.clone()));
    let e = MarkupElement { name: "tw-passagedata".to_owned(), attributes, children };
    assert(e@.children =~= seq![NodeView::Text(p@.content)]);
    proof {
        lemma_nodes_unique(e@.children, 1);
    }
    e
}

/// The number of the passage that `start` names.
pub fn find_start_pid(children: &Vec<MarkupNode>, name: &String) -> (r: Option<String>)
    ensures
        match start_pid(nodes_view(children@), name@, 0) {
            Some(n) => r is Some && r.unwrap()@ == n,
            None => r is None,
        },
{
    let ghost all = nodes_view(children@);
    let mut i: usize = 0;
    while i < children.len()
        invariant
            i <= children@.len(),
            all == nodes_view(children@),
            start_pid(all, name@, i as int) == start_pid(all, name@, 0),
        decreases children@.len() - i,
    {
        match &children[i] {
            MarkupNode::Element(e) => {
                assert(all[i as int] == NodeView::Element(e@));
                let hit = same_text(e.name.as_str(), "tw-passagedata") && match attribute(
                    &e.attributes,
                    "name",
                ) {
                    Some(n) => *n == *name,
                    None => false,
                };
                if hit {
                    return match attribute(&e.attributes, "pid") {
                        Some(p) => Some(p.clone()),
                        None => None,
                    };
                }
            },
            _ => {},
        }
        i += 1;
    }
    None
}

/// Puts a `tw-tag` element in front of `children` for each colour that is
/// a string.
pub fn push_tag_colors(children: &mut Vec<MarkupNode>, colors: &JsonMap)
    ensures
        nodes_view(final(children)@) == with_tags(
            nodes_view(old(children)@),
            colors@,
            colors@.len() as int,
        ),
        all_unique(nodes_view(old(children)@)) ==> all_unique(nodes_view(final(children)@)),
{
    let entries = colors.entries();
    let mut i: usize = 0;
    while i < entries.len()
        invariant
            i <= entries@.len(),
            crate::json::entries_view(entries@) == colors@,
            all_unique(nodes_view(old(children)@)) ==> all_unique(nodes_view(children@)),
            nodes_view(children@) == with_tags(nodes_view(old(children)@), colors@, i as int),
        decreases entries@.len() - i,
    {
        assert(colors@[i as int] == (entries@[i as int].0@, entries@[i as int].1@));
        match &entries[i].1 {
            JsonValue::String(c) => {
                let mut attributes: Vec<(String, String)> = Vec::new();
                attributes.push(("name".to_owned(), entries[i].0.clone()));
                attributes.push(("color".to_owned(), c.clone()));
                let e = MarkupElement {
                    name: "tw-tag".to_owned(),
                    attributes,
                    children: Vec::new(),
                };
                assert(e@.attributes =~= seq![("name"@, entries@[i as int].0@), ("color"@, c@)]);
                assert(e@.children =~= Seq::<NodeView>::empty());
                let ghost before = nodes_view(children@);
                children.insert(0, MarkupNode::Element(e));
                assert(nodes_view(children@) =~= seq![NodeView::Element(e@)] + before);
                proof {
                    crate::markup_laws::lemma_markup_names();
                    lemma_nodes_unique(e@.children, 0);
                    assert(element_unique(e@));
                    if all_unique(before) {
                        let after = nodes_view(children@);
                        assert forall|j: int| 0 <= j < after.len() implies node_unique(
                            #[trigger] after[j],
                        ) by {
                            if j > 0 {
                                assert(after[j] == before[j - 1]);
                            }
                        }
                    }
                }
            },
            _ => {},
        }
        i += 1;
    }
}

/// Applies one entry of the story metadata to the `tw-storydata` element.
pub fn apply_entry(sd: &mut MarkupElement, key: &String, value: &JsonValue)
    ensures
        final(sd)@ == apply_meta(old(sd)@, key@, value@),
        unique_keys(old(sd)@.attributes) ==> unique_keys(final(sd)@.attributes),
        all_unique(old(sd)@.children) ==> all_unique(final(sd)@.children),
{
    if same_text(key.as_str(), "start") {
        match value {
            JsonValue::String(name) => {
                match find_start_pid(&sd.children, name) {
                    Some(pid) => {
                        set_attribute(&mut sd.attributes, "startnode".to_owned(), pid);
                    },
                    None => {},
                }
            },
            _ => {},
        }
    } else if same_text(key.as_str(), "tag-colors") {
        match value {
            JsonValue::Object(colors) => {
                push_tag_colors(&mut sd.children, colors);
            },
            _ => {},
        }
    } else {
        match value {
            JsonValue::String(s) => {
                set_attribute(&mut sd.attributes, key.clone(), s.clone());
            },
            _ => {},
        }
    }
}

/// Serializes a [`Story`] into a `tw-storydata` element.
pub fn serialize_html(story: &Story) -> (r: MarkupElement)
    ensures
        r@ == write_storydata(story@),
        element_unique(r@),
{
    let ghost all = passages_view(story.passages@);
    let mut children: Vec<MarkupNode> = Vec::new();
    let mut count: usize = 0;
    let mut i: usize = 0;
    assert(nodes_view(children@) =~= Seq::<NodeView>::empty());
    while i < story.passages.len()
        invariant
            i <= story.passages@.len(),
            count <= i,
            all == passages_view(story.passages@),
            all_unique(nodes_view(children@)),
            write_passages(all, i as int) == (MarkupWrite {
                children: nodes_view(children@),
                count: count as nat,
            }),
        decreases story.passages@.len() - i,
    {
        let p = &story.passages[i];
        assert(all[i as int] == p@);
        if has_tag(&p.tags, "stylesheet") {
            push_sheet(
                &mut children,
                "style",
                "stylesheet",
                "twine-user-stylesheet",
                "text/twine-css",
                &p.content,
            );
        } else if has_tag(&p.tags, "script") {
            push_sheet(
                &mut children,
                "script",
                "script",
                "twine-user-script",
                "text/twine-javascript",
                &p.content,
            );
        } else {
            count += 1;
            let e = passage_to_element(p, count as u64);
            let ghost before = nodes_view(children@);
            children.push(MarkupNode::Element(e));
            assert(nodes_view(children@) =~= before.push(NodeView::Element(e@)));
            proof {
                let after = nodes_view(children@);
                assert forall|j: int| 0 <= j < after.len() implies node_unique(
                    #[trigger] after[j],
                ) by {
                    if j < before.len() {
                        assert(after[j] == before[j]);
                    }
                }
            }
        }
        i += 1;
    }
    let mut attributes: Vec<(String, String)> = Vec::new();
    attributes.push(("name".to_owned(), story.title.clone()));
    let mut sd = MarkupElement { name: "tw-storydata".to_owned(), attributes, children };
    assert(sd@.attributes =~= seq![("name"@, story@.title)]);
    let entries = story.meta.entries();
    let ghost start = sd@;
    let mut k: usize = 0;
    while k < entries.len()
        invariant
            k <= entries@.len(),
            crate::json::entries_view(entries@) == story@.meta,
            unique_keys(sd@.attributes),
            all_unique(sd@.children),
            sd@ == apply_meta_upto(start, story@.meta, k as int),
        decreases entries@.len() - k,
    {
        assert(story@.meta[k as int] == (entries@[k as int].0@, entries@[k as int].1@));
        apply_entry(&mut sd, &entries[k].0, &entries[k].1);
        k += 1;
    }
    proof {
        lemma_nodes_unique(sd@.children, sd@.children.len() as int);
    }
    sd
}

} // verus!
