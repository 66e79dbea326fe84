//! What writing a story as markup and reading it back keeps.

use vstd::prelude::*;
use crate::assoc::{find_key, lemma_find_key, lemma_find_key_is, lemma_find_key_none,
    lemma_lookup_concat, lemma_lookup_upsert, lemma_lookup_without, lemma_upsert_unique,
    lemma_without_unique, lookup, unique_keys, upsert, without};
use crate::html::{absorb, absorb_upto, add_sheet, apply_meta, apply_meta_upto, attrs_meta,
    by_name, child_named, element_text, elements_upto, is_named, lemma_child_named,
    lemma_insert_by_pid, merge_sheet, passage_element, passage_of, pid_key, read_storydata,
    sheet_element, sort_by_pid, start_name, start_pid, tag_element, text_upto, with_strings,
    with_tags, write_passages, write_storydata, MarkupRead};
use crate::json::Json;
use crate::story::{PassageView, StoryView, WarningView};
use crate::text::{decimal, is_word, join, lemma_decimal_injective, lemma_parse_decimal,
    lemma_words_join, words};
use crate::xml::{ElementView, NodeView};

verus! {

/// The names that markup gives a meaning to are all different.
pub proof fn lemma_markup_names()
    ensures
        "pid"@ != "name"@,
        "pid"@ != "tags"@,
        "name"@ != "tags"@,
        "pid"@ != "color"@,
        "name"@ != "color"@,
        "pid"@ != "role"@,
        "pid"@ != "id"@,
        "pid"@ != "type"@,
        "role"@ != "id"@,
        "role"@ != "type"@,
        "id"@ != "type"@,
        "hidden"@ != "name"@,
        "hidden"@ != "startnode"@,
        "hidden"@ != "start"@,
        "hidden"@ != "tag-colors"@,
        "startnode"@ != "name"@,
        "startnode"@ != "start"@,
        "startnode"@ != "tag-colors"@,
        "start"@ != "name"@,
        "start"@ != "tag-colors"@,
        "tag-colors"@ != "name"@,
        "tw-passagedata"@ != "style"@,
        "tw-passagedata"@ != "script"@,
        "tw-passagedata"@ != "tw-tag"@,
        "style"@ != "script"@,
        "style"@ != "tw-tag"@,
        "script"@ != "tw-tag"@,
        "StoryStylesheet"@ != "StoryScript"@,
        "stylesheet"@ != "script"@,
{
    reveal_strlit("pid");
    reveal_strlit("name");
    reveal_strlit("tags");
    reveal_strlit("color");
    reveal_strlit("role");
    reveal_strlit("id");
    reveal_strlit("type");
    reveal_strlit("hidden");
    reveal_strlit("startnode");
    reveal_strlit("start");
    reveal_strlit("tag-colors");
    reveal_strlit("tw-passagedata");
    reveal_strlit("style");
    reveal_strlit("script");
    reveal_strlit("tw-tag");
    reveal_strlit("StoryStylesheet");
    reveal_strlit("StoryScript");
    reveal_strlit("stylesheet");
    assert("hidden"@.len() == 6 && "startnode"@.len() == 9 && "start"@.len() == 5);
    assert("tag-colors"@.len() == 10 && "name"@.len() == 4 && "pid"@.len() == 3);
    assert("style"@.len() == 5 && "script"@.len() == 6 && "tw-tag"@.len() == 6);
    assert("StoryStylesheet"@.len() == 15 && "StoryScript"@.len() == 11);
    assert("stylesheet"@.len() == 10 && "color"@.len() == 5 && "id"@.len() == 2);
    assert("script"@[0] != "tw-tag"@[0]);
    assert("name"@[0] != "tags"@[0]);
    assert("pid"@[0] != "role"@[0]);
    assert("role"@[0] != "type"@[0]);
    assert("pid"@[0] != "type"@[0]);
    assert("tw-passagedata"@.len() != "style"@.len());
}

/// A passage neither tagged `stylesheet` nor `script` is written as a
/// `tw-passagedata` element.
pub open spec fn is_sheet(p: PassageView) -> bool {
    p.tags.contains("stylesheet"@) || p.tags.contains("script"@)
}

/// The passages among the first `n` that are written as `tw-passagedata`
/// elements, in order.
pub open spec fn plain_upto(passages: Seq<PassageView>, n: int) -> Seq<PassageView>
    decreases n,
{
    if n <= 0 {
        Seq::empty()
    } else if is_sheet(passages[n - 1]) {
        plain_upto(passages, n - 1)
    } else {
        plain_upto(passages, n - 1).push(passages[n - 1])
    }
}

/// What the stylesheet and script passages among the first `n` read back
/// as: one passage `StoryStylesheet` and one passage `StoryScript`, in the
/// order in which the first of each kind stands, each holding the texts of
/// its kind with line feeds between them.
pub open spec fn sheets_upto(passages: Seq<PassageView>, n: int) -> Seq<PassageView>
    decreases n,
{
    if n <= 0 {
        Seq::empty()
    } else if passages[n - 1].tags.contains("stylesheet"@) {
        merge_sheet(
            sheets_upto(passages, n - 1),
            "StoryStylesheet"@,
            "stylesheet"@,
            Some(passages[n - 1].content),
        )
    } else if passages[n - 1].tags.contains("script"@) {
        merge_sheet(
            sheets_upto(passages, n - 1),
            "StoryScript"@,
            "script"@,
            Some(passages[n - 1].content),
        )
    } else {
        sheets_upto(passages, n - 1)
    }
}

/// A passage that a `tw-passagedata` element holds without loss: its tags
/// are words, its metadata values are strings, and no metadata key is one
/// of the attributes `pid`, `name` and `tags`.
pub open spec fn plain_faithful(p: PassageView) -> bool {
    &&& forall|i: int| 0 <= i < p.tags.len() ==> is_word(#[trigger] p.tags[i])
    &&& unique_keys(p.meta)
    &&& forall|i: int| 0 <= i < p.meta.len() ==> (#[trigger] p.meta[i]).1 is String
    &&& forall|i: int|
        0 <= i < p.meta.len() ==> (#[trigger] p.meta[i]).0 != "pid"@ && p.meta[i].0 != "name"@
            && p.meta[i].0 != "tags"@
}

/// Metadata with every string value as an attribute value.
pub open spec fn as_attrs(meta: Seq<(Seq<char>, Json)>) -> Seq<(Seq<char>, Seq<char>)> {
    Seq::new(meta.len(), |i: int| (meta[i].0, meta[i].1->String_0))
}

/// Attributes with every value as a JSON string.
pub open spec fn as_meta(attrs: Seq<(Seq<char>, Seq<char>)>) -> Seq<(Seq<char>, Json)> {
    Seq::new(attrs.len(), |i: int| (attrs[i].0, Json::String(attrs[i].1)))
}

/// Attributes with unique keys read as metadata entry by entry.
pub proof fn lemma_attrs_meta_unique(attrs: Seq<(Seq<char>, Seq<char>)>)
    requires
        unique_keys(attrs),
    ensures
        attrs_meta(attrs) == as_meta(attrs),
    decreases attrs.len(),
{
    if attrs.len() == 0 {
        assert(attrs_meta(attrs) =~= as_meta(attrs));
    } else {
        let init = attrs.drop_last();
        assert forall|i: int, j: int| 0 <= i < j < init.len() implies (#[trigger] init[i]).0 != (
        #[trigger] init[j]).0 by {
            assert(init[i] == attrs[i] && init[j] == attrs[j]);
        }
        lemma_attrs_meta_unique(init);
        let m = as_meta(init);
        let k = attrs.last().0;
        assert forall|j: int| 0 <= j < m.len() implies (#[trigger] m[j]).0 != k by {
            assert(m[j].0 == attrs[j].0);
            assert(attrs[attrs.len() - 1].0 == k);
        }
        lemma_find_key_none(m, k);
        assert(m.push((k, Json::String(attrs.last().1))) =~= as_meta(attrs));
    }
}

/// String-valued metadata whose keys are new all becomes attributes, in
/// order.
pub proof fn lemma_with_strings(
    base: Seq<(Seq<char>, Seq<char>)>,
    meta: Seq<(Seq<char>, Json)>,
    n: int,
)
    requires
        0 <= n <= meta.len(),
        unique_keys(base),
        unique_keys(meta),
        forall|i: int| 0 <= i < meta.len() ==> (#[trigger] meta[i]).1 is String,
        forall|i: int, j: int|
            0 <= i < meta.len() && 0 <= j < base.len() ==> (#[trigger] meta[i]).0 != (
            #[trigger] base[j]).0,
    ensures
        with_strings(base, meta, n) == base + as_attrs(meta.take(n)),
        unique_keys(with_strings(base, meta, n)),
    decreases n,
{
    if n == 0 {
        assert(base + as_attrs(meta.take(0)) =~= base);
    } else {
        lemma_with_strings(base, meta, n - 1);
        let prev = base + as_attrs(meta.take(n - 1));
        let k = meta[n - 1].0;
        assert(meta[n - 1].1 is String);
        let v = meta[n - 1].1->String_0;
        assert forall|j: int| 0 <= j < prev.len() implies (#[trigger] prev[j]).0 != k by {
            if j < base.len() {
                assert(prev[j] == base[j]);
            } else {
                assert(prev[j].0 == meta[j - base.len()].0);
            }
        }
        lemma_find_key_none(prev, k);
        assert(prev.push((k, v)) =~= base + as_attrs(meta.take(n)));
        lemma_upsert_unique(prev, k, v);
    }
}

/// The text of an element with one text child is that text.
pub proof fn lemma_text_single(content: Seq<char>)
    ensures
        text_upto(seq![NodeView::Text(content)], 1) == Some(content),
{
    assert(text_upto(seq![NodeView::Text(content)], 0) is None);
}

/// Reading the `tw-passagedata` element of a faithful passage gives the
/// passage back.
pub proof fn lemma_passage_round_trip(p: PassageView, pid: nat)
    requires
        plain_faithful(p),
    ensures
        passage_of(passage_element(p, pid)) == Some(p),
        passage_element(p, pid).name == "tw-passagedata"@,
        lookup(passage_element(p, pid).attributes, "pid"@) == Some(decimal(pid)),
        lookup(passage_element(p, pid).attributes, "name"@) == Some(p.name),
{
    lemma_markup_names();
    let tags = join(p.tags, seq![' ']);
    let base = seq![("pid"@, decimal(pid)), ("name"@, p.name), ("tags"@, tags)];
    assert(unique_keys(base));
    lemma_with_strings(base, p.meta, p.meta.len() as int);
    assert(p.meta.take(p.meta.len() as int) =~= p.meta);
    let e = passage_element(p, pid);
    let attrs = base + as_attrs(p.meta);
    assert(e.attributes == attrs);
    lemma_attrs_meta_unique(attrs);
    let m0 = as_meta(attrs);
    let pid_entry = ("pid"@, Json::String(decimal(pid)));
    let name_entry = ("name"@, Json::String(p.name));
    let tags_entry = ("tags"@, Json::String(tags));
    assert(as_meta(as_attrs(p.meta)) =~= p.meta) by {
        assert forall|i: int| 0 <= i < p.meta.len() implies as_meta(as_attrs(p.meta))[i]
            == p.meta[i] by {
            assert(p.meta[i].1 is String);
        }
    }
    assert(m0 =~= seq![pid_entry, name_entry, tags_entry] + p.meta);
    lemma_find_key_is(m0, "pid"@, 0);
    let m1 = without(m0, "pid"@);
    assert(m1 =~= seq![name_entry, tags_entry] + p.meta);
    lemma_find_key_is(m1, "name"@, 0);
    let m2 = without(m1, "name"@);
    assert(m2 =~= seq![tags_entry] + p.meta);
    lemma_find_key_is(m2, "tags"@, 0);
    assert(without(m2, "tags"@) =~= p.meta);
    lemma_words_join(p.tags);
    lemma_text_single(p.content);
    lemma_find_key_is(attrs, "pid"@, 0);
    lemma_find_key_is(attrs, "name"@, 1);
}

/// The elements among the first `n` of `children` that are
/// `tw-passagedata` elements (`numbered`), or those that are not.
pub open spec fn picked(children: Seq<NodeView>, numbered: bool, n: int) -> Seq<ElementView>
    decreases n,
{
    if n <= 0 {
        Seq::empty()
    } else {
        match children[n - 1] {
            NodeView::Element(e) => if (e.name == "tw-passagedata"@) == numbered {
                picked(children, numbered, n - 1).push(e)
            } else {
                picked(children, numbered, n - 1)
            },
            _ => picked(children, numbered, n - 1),
        }
    }
}

/// The number by which a node is ordered.
pub open spec fn node_key(n: NodeView) -> u32 {
    match n {
        NodeView::Element(e) => pid_key(e),
        _ => u32::MAX,
    }
}

/// A `tw-passagedata` element has a number below `u32::MAX`, and any other
/// element has none.
pub open spec fn key_fits(n: NodeView) -> bool {
    match n {
        NodeView::Element(e) => if e.name == "tw-passagedata"@ {
            pid_key(e) < u32::MAX
        } else {
            pid_key(e) == u32::MAX
        },
        _ => true,
    }
}

/// Every picked element is one of the children, and of the kind asked for.
pub proof fn lemma_picked_source(children: Seq<NodeView>, numbered: bool, n: int, k: int) -> (i:
    int)
    requires
        0 <= n <= children.len(),
        0 <= k < picked(children, numbered, n).len(),
    ensures
        0 <= i < n,
        children[i] == NodeView::Element(picked(children, numbered, n)[k]),
        (picked(children, numbered, n)[k].name == "tw-passagedata"@) == numbered,
        picked(children, numbered, i).len() == k,
    decreases n,
{
    let prev = picked(children, numbered, n - 1);
    if k < prev.len() {
        lemma_picked_source(children, numbered, n - 1, k)
    } else {
        n - 1
    }
}

/// `picked` looks at the first `n` children only.
pub proof fn lemma_picked_prefix(a: Seq<NodeView>, b: Seq<NodeView>, numbered: bool, n: int)
    requires
        0 <= n <= a.len(),
        n <= b.len(),
        forall|i: int| 0 <= i < n ==> a[i] == b[i],
    ensures
        picked(a, numbered, n) == picked(b, numbered, n),
    decreases n,
{
    if n > 0 {
        lemma_picked_prefix(a, b, numbered, n - 1);
    }
}

/// Picking from two lists in a row picks from each.
pub proof fn lemma_picked_concat(a: Seq<NodeView>, b: Seq<NodeView>, numbered: bool, n: int)
    requires
        0 <= n <= b.len(),
    ensures
        picked(a + b, numbered, a.len() + n) == picked(a, numbered, a.len() as int) + picked(
            b,
            numbered,
            n,
        ),
    decreases n,
{
    if n == 0 {
        lemma_picked_prefix(a + b, a, numbered, a.len() as int);
        assert(picked(a, numbered, a.len() as int) + picked(b, numbered, 0) =~= picked(
            a,
            numbered,
            a.len() as int,
        ));
    } else {
        lemma_picked_concat(a, b, numbered, n - 1);
        assert((a + b)[a.len() + n - 1] == b[n - 1]);
        let pa = picked(a, numbered, a.len() as int);
        let pb = picked(b, numbered, n - 1);
        match b[n - 1] {
            NodeView::Element(e) => {
                if (e.name == "tw-passagedata"@) == numbered {
                    assert((pa + pb).push(e) =~= pa + pb.push(e));
                }
            },
            _ => {},
        }
    }
}

/// Children whose `tw-passagedata` elements stand in ascending order of
/// their numbers, and whose other elements have no number, are read with
/// the `tw-passagedata` elements first; within each kind the order stays.
pub proof fn lemma_sort_children(children: Seq<NodeView>, n: int)
    requires
        0 <= n <= children.len(),
        forall|i: int| 0 <= i < n ==> key_fits(#[trigger] children[i]),
        forall|i: int, j: int|
            0 <= i < j < n && is_named(#[trigger] children[i], "tw-passagedata"@) && is_named(
                #[trigger] children[j],
                "tw-passagedata"@,
            ) ==> node_key(children[i]) <= node_key(children[j]),
    ensures
        sort_by_pid(elements_upto(children, n)) == picked(children, true, n) + picked(
            children,
            false,
            n,
        ),
    decreases n,
{
    if n == 0 {
        assert(picked(children, true, 0) + picked(children, false, 0) =~= Seq::<
            ElementView,
        >::empty());
    } else {
        lemma_sort_children(children, n - 1);
        let first = picked(children, true, n - 1);
        let second = picked(children, false, n - 1);
        let sorted = first + second;
        match children[n - 1] {
            NodeView::Element(e) => {
                assert(elements_upto(children, n).drop_last() =~= elements_upto(
                    children,
                    n - 1,
                ));
                assert(key_fits(children[n - 1]));
                if e.name == "tw-passagedata"@ {
                    let pos = first.len() as int;
                    assert forall|j: int| pos <= j < sorted.len() implies pid_key(
                        #[trigger] sorted[j],
                    ) > pid_key(e) by {
                        let i = lemma_picked_source(children, false, n - 1, j - pos);
                        assert(sorted[j] == second[j - pos]);
                        assert(key_fits(children[i]));
                    }
                    if pos > 0 {
                        let i = lemma_picked_source(children, true, n - 1, pos - 1);
                        assert(sorted[pos - 1] == first[pos - 1]);
                        assert(is_named(children[i], "tw-passagedata"@));
                        assert(is_named(children[n - 1], "tw-passagedata"@));
                        assert(node_key(children[i]) <= node_key(children[n - 1]));
                    }
                    lemma_insert_by_pid(sorted, e, pos);
                    assert(sorted.insert(pos, e) =~= first.push(e) + second);
                } else {
                    let pos = sorted.len() as int;
                    lemma_insert_by_pid(sorted, e, pos);
                    assert(sorted.insert(pos, e) =~= first + second.push(e));
                }
            },
            _ => {},
        }
    }
}

/// The state after the elements `elems`, read one after the other.
pub open spec fn run(st: MarkupRead, elems: Seq<ElementView>) -> MarkupRead
    decreases elems.len(),
{
    if elems.len() == 0 {
        st
    } else {
        absorb(run(st, elems.drop_last()), elems.last())
    }
}

/// Reading the first `n` elements is reading them one after the other.
pub proof fn lemma_absorb_upto_run(elems: Seq<ElementView>, n: int)
    requires
        0 <= n <= elems.len(),
    ensures
        absorb_upto(elems, n) == run(
            MarkupRead { passages: Seq::empty(), colors: Seq::empty() },
            elems.take(n),
        ),
    decreases n,
{
    if n > 0 {
        lemma_absorb_upto_run(elems, n - 1);
        assert(elems.take(n).drop_last() =~= elems.take(n - 1));
    }
}

/// Reading two lists in a row is reading the second from where the first
/// ended.
pub proof fn lemma_run_concat(st: MarkupRead, a: Seq<ElementView>, b: Seq<ElementView>)
    ensures
        run(st, a + b) == run(run(st, a), b),
    decreases b.len(),
{
    if b.len() == 0 {
        assert(a + b =~= a);
    } else {
        lemma_run_concat(st, a, b.drop_last());
        assert((a + b).drop_last() =~= a + b.drop_last());
    }
}

/// The element of a child stands among the picked ones at the place that
/// the number of picked children before it gives.
pub proof fn lemma_picked_rank(children: Seq<NodeView>, numbered: bool, n: int, i: int)
    requires
        0 <= i < n <= children.len(),
        children[i] matches NodeView::Element(e) && (e.name == "tw-passagedata"@) == numbered,
    ensures
        picked(children, numbered, i).len() < picked(children, numbered, n).len(),
        picked(children, numbered, n)[picked(children, numbered, i).len() as int]
            == children[i]->Element_0,
        picked(children, numbered, n).take(picked(children, numbered, i).len() as int) == picked(
            children,
            numbered,
            i,
        ),
    decreases n,
{
    if n == i + 1 {
        assert(picked(children, numbered, n).take(picked(children, numbered, i).len() as int)
            =~= picked(children, numbered, i));
    } else {
        lemma_picked_rank(children, numbered, n - 1, i);
        let r = picked(children, numbered, i).len() as int;
        assert(picked(children, numbered, n).take(r) =~= picked(children, numbered, n - 1).take(
            r,
        ));
    }
}

/// Replacing an element that is no `tw-passagedata` element by another
/// such element replaces it among the picked ones, and leaves the
/// `tw-passagedata` elements as they are.
pub proof fn lemma_picked_update(children: Seq<NodeView>, i: int, y: ElementView, n: int)
    requires
        0 <= i < children.len(),
        0 <= n <= children.len(),
        children[i] matches NodeView::Element(x) && x.name != "tw-passagedata"@,
        y.name != "tw-passagedata"@,
    ensures
        picked(children.update(i, NodeView::Element(y)), true, n) == picked(children, true, n),
        i < n ==> picked(children.update(i, NodeView::Element(y)), false, n) == picked(
            children,
            false,
            n,
        ).update(picked(children, false, i).len() as int, y),
        i >= n ==> picked(children.update(i, NodeView::Element(y)), false, n) == picked(
            children,
            false,
            n,
        ),
    decreases n,
{
    let after = children.update(i, NodeView::Element(y));
    if n > 0 {
        lemma_picked_update(children, i, y, n - 1);
        let r = picked(children, false, i).len() as int;
        if i == n - 1 {
            assert(picked(after, false, n) =~= picked(children, false, n).update(r, y));
        } else if i < n - 1 {
            lemma_picked_rank(children, false, n - 1, i);
            assert(after[n - 1] == children[n - 1]);
            assert(picked(after, false, n) =~= picked(children, false, n).update(r, y));
        } else {
            assert(after[n - 1] == children[n - 1]);
        }
    }
}

/// The name of the element that holds the stylesheet, or the script.
pub open spec fn kind_name(style: bool) -> Seq<char> {
    if style {
        "style"@
    } else {
        "script"@
    }
}

/// The name of the passage that the stylesheet, or the script, reads back
/// as.
pub open spec fn sheet_name(style: bool) -> Seq<char> {
    if style {
        "StoryStylesheet"@
    } else {
        "StoryScript"@
    }
}

/// The tag of the passage that the stylesheet, or the script, reads back
/// as.
pub open spec fn sheet_tag(style: bool) -> Seq<char> {
    if style {
        "stylesheet"@
    } else {
        "script"@
    }
}

/// Whether one of `passages` has the name `name`.
pub open spec fn has_name(passages: Seq<PassageView>, name: Seq<char>) -> bool {
    find_key(by_name(passages), name) is Some
}

/// Reading a `style` or `script` element merges its text into the passage
/// of its kind.
pub proof fn lemma_absorb_sheet(st: MarkupRead, e: ElementView, style: bool)
    requires
        e.name == kind_name(style),
    ensures
        absorb(st, e) == (MarkupRead {
            passages: merge_sheet(
                st.passages,
                sheet_name(style),
                sheet_tag(style),
                element_text(e),
            ),
            ..st
        }),
{
    lemma_markup_names();
}

/// Merging a text and then another is merging the two with a line feed
/// between them.
pub proof fn lemma_merge_twice(
    passages: Seq<PassageView>,
    name: Seq<char>,
    tag: Seq<char>,
    a: Seq<char>,
    b: Seq<char>,
)
    ensures
        merge_sheet(merge_sheet(passages, name, tag, Some(a)), name, tag, Some(b)) == merge_sheet(
            passages,
            name,
            tag,
            Some(a + seq!['\n'] + b),
        ),
{
    let named = by_name(passages);
    lemma_find_key(named, name);
    let once = merge_sheet(passages, name, tag, Some(a));
    match find_key(named, name) {
        Some(i) => {
            assert forall|j: int| 0 <= j < i implies (#[trigger] by_name(once)[j]).0 != name by {
                assert(by_name(once)[j].0 == named[j].0);
            }
            assert(by_name(once)[i].0 == named[i].0);
            lemma_find_key_is(by_name(once), name, i);
            assert(passages[i].content + seq!['\n'] + a + seq!['\n'] + b =~= passages[i].content
                + seq!['\n'] + (a + seq!['\n'] + b));
            assert(merge_sheet(once, name, tag, Some(b)) =~= merge_sheet(
                passages,
                name,
                tag,
                Some(a + seq!['\n'] + b),
            ));
        },
        None => {
            let at = passages.len() as int;
            assert forall|j: int| 0 <= j < at implies (#[trigger] by_name(once)[j]).0 != name by {
                assert(by_name(once)[j].0 == named[j].0);
            }
            lemma_find_key_is(by_name(once), name, at);
            assert(merge_sheet(once, name, tag, Some(b)) =~= merge_sheet(
                passages,
                name,
                tag,
                Some(a + seq!['\n'] + b),
            ));
        },
    }
}

/// Merging keeps every passage that is there, under its name, and finds
/// the same first passage of any other name.
pub proof fn lemma_merge_keeps(
    passages: Seq<PassageView>,
    name: Seq<char>,
    tag: Seq<char>,
    text: Option<Seq<char>>,
    other: Seq<char>,
)
    ensures
        has_name(passages, other) ==> find_key(
            by_name(merge_sheet(passages, name, tag, text)),
            other,
        ) == find_key(by_name(passages), other),
        other != name && !has_name(passages, other) ==> !has_name(
            merge_sheet(passages, name, tag, text),
            other,
        ),
        text is Some ==> has_name(merge_sheet(passages, name, tag, text), name),
{
    let named = by_name(passages);
    let after = by_name(merge_sheet(passages, name, tag, text));
    lemma_find_key(named, name);
    lemma_find_key(named, other);
    lemma_find_key(after, other);
    lemma_find_key(after, name);
    if text is Some {
        match find_key(named, name) {
            Some(i) => {
                assert(forall|j: int| 0 <= j < named.len() ==> (#[trigger] after[j]).0
                    == named[j].0);
                assert(after[i].0 == name);
                match find_key(named, other) {
                    Some(k) => {
                        assert(after[k].0 == named[k].0);
                        assert forall|j: int| 0 <= j < k implies (#[trigger] after[j]).0
                            != other by {
                            assert(after[j].0 == named[j].0);
                        }
                        lemma_find_key_is(after, other, k);
                    },
                    None => {
                        assert forall|j: int| 0 <= j < after.len() implies (#[trigger] after[j]).0
                            != other by {
                            assert(after[j].0 == named[j].0);
                        }
                        lemma_find_key_none(after, other);
                    },
                }
            },
            None => {
                assert(forall|j: int| 0 <= j < named.len() ==> (#[trigger] after[j]) == named[j]);
                assert(after[named.len() as int].0 == name);
                match find_key(named, other) {
                    Some(k) => {
                        assert(after[k] == named[k]);
                        assert forall|j: int| 0 <= j < k implies (#[trigger] after[j]).0
                            != other by {
                            assert(after[j] == named[j]);
                        }
                        lemma_find_key_is(after, other, k);
                    },
                    None => {
                        if other != name {
                            assert forall|j: int| 0 <= j < after.len() implies (
                            #[trigger] after[j]).0 != other by {
                                if j < named.len() {
                                    assert(after[j] == named[j]);
                                }
                            }
                            lemma_find_key_none(after, other);
                        }
                    },
                }
            },
        }
    }
}

/// Merging into one passage and into another of a different name can be
/// done in either order, once the first passage is there.
pub proof fn lemma_merge_commute(
    passages: Seq<PassageView>,
    name: Seq<char>,
    tag: Seq<char>,
    text: Seq<char>,
    name2: Seq<char>,
    tag2: Seq<char>,
    text2: Option<Seq<char>>,
)
    requires
        name != name2,
        has_name(passages, name),
    ensures
        merge_sheet(merge_sheet(passages, name, tag, Some(text)), name2, tag2, text2)
            == merge_sheet(merge_sheet(passages, name2, tag2, text2), name, tag, Some(text)),
{
    let named = by_name(passages);
    lemma_find_key(named, name);
    lemma_find_key(named, name2);
    let i = find_key(named, name)->Some_0;
    lemma_merge_keeps(passages, name, tag, Some(text), name2);
    lemma_merge_keeps(passages, name2, tag2, text2, name);
    match text2 {
        None => {},
        Some(t2) => {
            let first = merge_sheet(passages, name, tag, Some(text));
            let second = merge_sheet(passages, name2, tag2, text2);
            match find_key(named, name2) {
                Some(k) => {
                    assert(k != i);
                    assert(merge_sheet(first, name2, tag2, text2) =~= merge_sheet(
                        second,
                        name,
                        tag,
                        Some(text),
                    ));
                },
                None => {
                    assert(!has_name(first, name2));
                    assert(merge_sheet(first, name2, tag2, text2) =~= merge_sheet(
                        second,
                        name,
                        tag,
                        Some(text),
                    ));
                },
            }
        },
    }
}

/// Merging into passages that follow others which do not hold the name
/// leaves the others alone.
pub proof fn lemma_merge_concat(
    front: Seq<PassageView>,
    back: Seq<PassageView>,
    name: Seq<char>,
    tag: Seq<char>,
    text: Option<Seq<char>>,
)
    requires
        !has_name(front, name),
    ensures
        merge_sheet(front + back, name, tag, text) == front + merge_sheet(back, name, tag, text),
{
    assert(by_name(front + back) =~= by_name(front) + by_name(back));
    lemma_lookup_concat(by_name(front), by_name(back), name);
    lemma_find_key(by_name(back), name);
    match text {
        None => {},
        Some(t) => {
            match find_key(by_name(back), name) {
                Some(i) => {
                    assert((front + back)[front.len() + i] == back[i]);
                    assert(merge_sheet(front + back, name, tag, text) =~= front + merge_sheet(
                        back,
                        name,
                        tag,
                        text,
                    ));
                },
                None => {
                    assert(merge_sheet(front + back, name, tag, text) =~= front + merge_sheet(
                        back,
                        name,
                        tag,
                        text,
                    ));
                },
            }
        },
    }
}

/// Reading an element keeps every passage name that is there.
pub proof fn lemma_absorb_keeps_name(st: MarkupRead, e: ElementView, name: Seq<char>)
    requires
        has_name(st.passages, name),
    ensures
        has_name(absorb(st, e).passages, name),
{
    lemma_markup_names();
    if e.name == "tw-passagedata"@ {
        match passage_of(e) {
            Some(p) => {
                assert(by_name(st.passages.push(p)) =~= by_name(st.passages) + seq![(p.name, p)]);
                lemma_lookup_concat(by_name(st.passages), seq![(p.name, p)], name);
            },
            None => {},
        }
    } else if e.name == "style"@ {
        lemma_merge_keeps(st.passages, "StoryStylesheet"@, "stylesheet"@, element_text(e), name);
    } else if e.name == "script"@ {
        lemma_merge_keeps(st.passages, "StoryScript"@, "script"@, element_text(e), name);
    }
}

/// Once a `style` or `script` element with text has been read, the
/// passage of its kind is there.
pub proof fn lemma_run_has_sheet(st: MarkupRead, elems: Seq<ElementView>, r: int, style: bool)
    requires
        0 <= r < elems.len(),
        elems[r].name == kind_name(style),
        element_text(elems[r]) is Some,
    ensures
        has_name(run(st, elems).passages, sheet_name(style)),
    decreases elems.len(),
{
    let before = run(st, elems.drop_last());
    if r == elems.len() - 1 {
        lemma_absorb_sheet(before, elems.last(), style);
        lemma_merge_keeps(
            before.passages,
            sheet_name(style),
            sheet_tag(style),
            element_text(elems.last()),
            sheet_name(style),
        );
    } else {
        assert(elems.drop_last()[r] == elems[r]);
        lemma_run_has_sheet(st, elems.drop_last(), r, style);
        lemma_absorb_keeps_name(before, elems.last(), sheet_name(style));
    }
}

/// Giving a `style` or `script` element one more text, with only elements
/// of the other kind behind it, is merging that text at the end of the
/// reading.
pub proof fn lemma_sheet_update(
    st: MarkupRead,
    elems: Seq<ElementView>,
    r: int,
    y: ElementView,
    style: bool,
    old_text: Seq<char>,
    text: Seq<char>,
)
    requires
        0 <= r < elems.len(),
        elems[r].name == kind_name(style),
        y.name == kind_name(style),
        element_text(elems[r]) == Some(old_text),
        element_text(y) == Some(old_text + seq!['\n'] + text),
        forall|j: int| r < j < elems.len() ==> (#[trigger] elems[j]).name == kind_name(!style),
    ensures
        run(st, elems.update(r, y)) == (MarkupRead {
            passages: merge_sheet(
                run(st, elems).passages,
                sheet_name(style),
                sheet_tag(style),
                Some(text),
            ),
            ..run(st, elems)
        }),
    decreases elems.len(),
{
    lemma_markup_names();
    let init = elems.drop_last();
    let before = run(st, init);
    if r == elems.len() - 1 {
        assert(elems.update(r, y).drop_last() =~= init);
        assert(elems.update(r, y).last() == y);
        lemma_absorb_sheet(before, y, style);
        lemma_absorb_sheet(before, elems.last(), style);
        lemma_merge_twice(before.passages, sheet_name(style), sheet_tag(style), old_text, text);
    } else {
        let last = elems.last();
        assert(elems.update(r, y).drop_last() =~= init.update(r, y));
        assert(elems.update(r, y).last() == last);
        assert(init[r] == elems[r]);
        assert forall|j: int| r < j < init.len() implies (#[trigger] init[j]).name == kind_name(
            !style,
        ) by {
            assert(init[j] == elems[j]);
        }
        lemma_sheet_update(st, init, r, y, style, old_text, text);
        lemma_run_has_sheet(st, init, r, style);
        assert(elems[elems.len() - 1].name == kind_name(!style));
        lemma_absorb_sheet(before, last, !style);
        lemma_absorb_sheet(run(st, init.update(r, y)), last, !style);
        lemma_merge_commute(
            before.passages,
            sheet_name(style),
            sheet_tag(style),
            text,
            sheet_name(!style),
            sheet_tag(!style),
            element_text(last),
        );
    }
}

/// The text of children with two more text children at the end.
pub proof fn lemma_text_append(children: Seq<NodeView>, a: Seq<char>, b: Seq<char>)
    requires
        text_upto(children, children.len() as int) is Some,
    ensures
        text_upto(
            children.push(NodeView::Text(a)).push(NodeView::Text(b)),
            (children.len() + 2) as int,
        ) == Some(text_upto(children, children.len() as int)->Some_0 + a + b),
{
    let one = children.push(NodeView::Text(a));
    let two = one.push(NodeView::Text(b));
    let n = children.len() as int;
    lemma_text_prefix(children, two, n);
    assert(two[n] == NodeView::Text(a));
    assert(two[n + 1] == NodeView::Text(b));
    assert(text_upto(two, n + 1) == Some(text_upto(children, n)->Some_0 + a));
    assert(text_upto(two, n + 2) == Some(text_upto(two, n + 1)->Some_0 + b));
}

/// `text_upto` looks at the first `n` children only.
pub proof fn lemma_text_prefix(a: Seq<NodeView>, b: Seq<NodeView>, n: int)
    requires
        0 <= n <= a.len(),
        n <= b.len(),
        forall|i: int| 0 <= i < n ==> a[i] == b[i],
    ensures
        text_upto(a, n) == text_upto(b, n),
    decreases n,
{
    if n > 0 {
        lemma_text_prefix(a, b, n - 1);
    }
}

/// A `style` or `script` element as the writer makes it: without a `pid`
/// attribute, and with text.
pub open spec fn sheet_node(n: NodeView) -> bool {
    n matches NodeView::Element(e) && (e.name == "style"@ || e.name == "script"@) && lookup(
        e.attributes,
        "pid"@,
    ) is None && element_text(e) is Some
}

/// Children as the writer makes them from passages: `tw-passagedata`
/// elements with numbers up to `count` in ascending order, at most one
/// `style` element and at most one `script` element.
pub open spec fn well_written(c: Seq<NodeView>, count: nat) -> bool {
    &&& forall|i: int|
        0 <= i < c.len() ==> (is_named(#[trigger] c[i], "tw-passagedata"@) || sheet_node(c[i]))
            && key_fits(c[i])
    &&& forall|i: int|
        0 <= i < c.len() && is_named(#[trigger] c[i], "tw-passagedata"@) ==> node_key(c[i])
            <= count
    &&& forall|i: int, j: int|
        0 <= i < j < c.len() && is_named(#[trigger] c[i], "tw-passagedata"@) && is_named(
            #[trigger] c[j],
            "tw-passagedata"@,
        ) ==> node_key(c[i]) <= node_key(c[j])
    &&& forall|i: int, j: int|
        0 <= i < j < c.len() ==> !(is_named(#[trigger] c[i], "style"@) && is_named(
            #[trigger] c[j],
            "style"@,
        ))
    &&& forall|i: int, j: int|
        0 <= i < j < c.len() ==> !(is_named(#[trigger] c[i], "script"@) && is_named(
            #[trigger] c[j],
            "script"@,
        ))
}

/// The `tw-passagedata` elements of passages, numbered from one.
pub open spec fn plain_elements(plain: Seq<PassageView>) -> Seq<ElementView> {
    Seq::new(plain.len(), |j: int| passage_element(plain[j], (j + 1) as nat))
}

/// Writing a stylesheet or script passage keeps the children well
/// written, leaves the `tw-passagedata` elements alone, and reads back as
/// one more text merged into the passage of its kind.
pub proof fn lemma_add_sheet(
    c: Seq<NodeView>,
    count: nat,
    style: bool,
    role: Seq<char>,
    id: Seq<char>,
    kind: Seq<char>,
    content: Seq<char>,
    st: MarkupRead,
)
    requires
        well_written(c, count),
    ensures
        well_written(add_sheet(c, kind_name(style), role, id, kind, content), count),
        picked(
            add_sheet(c, kind_name(style), role, id, kind, content),
            true,
            add_sheet(c, kind_name(style), role, id, kind, content).len() as int,
        ) == picked(c, true, c.len() as int),
        run(
            st,
            picked(
                add_sheet(c, kind_name(style), role, id, kind, content),
                false,
                add_sheet(c, kind_name(style), role, id, kind, content).len() as int,
            ),
        ) == (MarkupRead {
            passages: merge_sheet(
                run(st, picked(c, false, c.len() as int)).passages,
                sheet_name(style),
                sheet_tag(style),
                Some(content),
            ),
            ..run(st, picked(c, false, c.len() as int))
        }),
{
    lemma_markup_names();
    let name = kind_name(style);
    let after = add_sheet(c, name, role, id, kind, content);
    let n = c.len() as int;
    lemma_child_named(c, name);
    match child_named(c, name) {
        None => {
            let z = sheet_element(name, role, id, kind, content);
            assert(after == c.push(NodeView::Element(z)));
            lemma_find_key_none(z.attributes, "pid"@);
            lemma_text_single(content);
            assert(sheet_node(NodeView::Element(z)));
            assert(key_fits(NodeView::Element(z)));
            assert forall|i: int| 0 <= i < after.len() implies (is_named(
                #[trigger] after[i],
                "tw-passagedata"@,
            ) || sheet_node(after[i])) && key_fits(after[i]) by {
                if i < n {
                    assert(after[i] == c[i]);
                }
            }
            assert forall|i: int|
                0 <= i < after.len() && is_named(
                    #[trigger] after[i],
                    "tw-passagedata"@,
                ) implies node_key(after[i]) <= count by {
                assert(after[i] == c[i]);
            }
            assert forall|i: int, j: int|
                0 <= i < j < after.len() && is_named(
                    #[trigger] after[i],
                    "tw-passagedata"@,
                ) && is_named(#[trigger] after[j], "tw-passagedata"@) implies node_key(after[i])
                <= node_key(after[j]) by {
                assert(after[i] == c[i] && after[j] == c[j]);
            }
            assert forall|i: int, j: int| 0 <= i < j < after.len() implies !(is_named(
                #[trigger] after[i],
                "style"@,
            ) && is_named(#[trigger] after[j], "style"@)) by {
                assert(after[i] == c[i]);
                if j < n {
                    assert(after[j] == c[j]);
                }
            }
            assert forall|i: int, j: int| 0 <= i < j < after.len() implies !(is_named(
                #[trigger] after[i],
                "script"@,
            ) && is_named(#[trigger] after[j], "script"@)) by {
                assert(after[i] == c[i]);
                if j < n {
                    assert(after[j] == c[j]);
                }
            }
            lemma_picked_prefix(after, c, true, n);
            lemma_picked_prefix(after, c, false, n);
            let sheets = picked(c, false, n);
            assert(picked(after, false, n + 1) == sheets.push(z));
            assert(sheets.push(z).drop_last() =~= sheets);
            lemma_absorb_sheet(run(st, sheets), z, style);
        },
        Some(i) => {
            let x = c[i]->Element_0;
            let y = ElementView {
                children: x.children.push(NodeView::Text(seq!['\n'])).push(
                    NodeView::Text(content),
                ),
                ..x
            };
            assert(after == c.update(i, NodeView::Element(y)));
            assert(sheet_node(c[i]));
            let old_text = element_text(x)->Some_0;
            lemma_text_append(x.children, seq!['\n'], content);
            assert(element_text(y) == Some(old_text + seq!['\n'] + content));
            assert(key_fits(c[i]));
            assert(sheet_node(NodeView::Element(y)));
            assert(key_fits(NodeView::Element(y)));
            assert forall|k: int| 0 <= k < after.len() implies is_named(
                #[trigger] after[k],
                "tw-passagedata"@,
            ) == is_named(c[k], "tw-passagedata"@) && is_named(after[k], "style"@) == is_named(
                c[k],
                "style"@,
            ) && is_named(after[k], "script"@) == is_named(c[k], "script"@) && node_key(after[k])
                == node_key(c[k]) && key_fits(after[k]) && (is_named(after[k], "tw-passagedata"@)
                || sheet_node(after[k])) by {
                if k != i {
                    assert(after[k] == c[k]);
                }
            }
            lemma_picked_update(c, i, y, n);
            let sheets = picked(c, false, n);
            let r = picked(c, false, i).len() as int;
            lemma_picked_rank(c, false, n, i);
            assert(sheets[r] == x);
            assert forall|k: int| r < k < sheets.len() implies (#[trigger] sheets[k]).name
                == kind_name(!style) by {
                let j = lemma_picked_source(c, false, n, k);
                assert(j != i);
                assert(is_named(c[j], "tw-passagedata"@) || sheet_node(c[j]));
                assert(is_named(c[i], name));
                if j < i {
                    assert(!(is_named(c[j], "style"@) && is_named(c[i], "style"@)));
                    assert(!(is_named(c[j], "script"@) && is_named(c[i], "script"@)));
                } else {
                    assert(!(is_named(c[i], "style"@) && is_named(c[j], "style"@)));
                    assert(!(is_named(c[i], "script"@) && is_named(c[j], "script"@)));
                }
            }
            lemma_sheet_update(st, sheets, r, y, style, old_text, content);
        },
    }
}

/// Whether a passage goes into the `style` element, or into the `script`
/// element.
pub open spec fn is_kind(p: PassageView, style: bool) -> bool {
    if style {
        p.tags.contains("stylesheet"@)
    } else {
        !p.tags.contains("stylesheet"@) && p.tags.contains("script"@)
    }
}

/// Whether one of the first `n` passages is of the kind.
pub open spec fn kind_among(passages: Seq<PassageView>, n: int, style: bool) -> bool {
    exists|i: int| 0 <= i < n && is_kind(#[trigger] passages[i], style)
}

/// The number of a written `tw-passagedata` element is the number it was
/// written with.
pub proof fn lemma_passage_key(p: PassageView, pid: nat)
    requires
        plain_faithful(p),
        pid <= u32::MAX,
    ensures
        pid_key(passage_element(p, pid)) == pid,
{
    lemma_passage_round_trip(p, pid);
    lemma_parse_decimal(pid);
}

/// What the writer makes of the first `n` passages: well written children
/// whose `tw-passagedata` elements are those of the plain passages, and
/// whose `style` and `script` elements read back as the merged stylesheet
/// and script behind whatever passages are there already.
pub proof fn lemma_written(passages: Seq<PassageView>, n: int, st: MarkupRead)
    requires
        0 <= n <= passages.len() < u32::MAX,
        forall|i: int|
            0 <= i < passages.len() && !is_sheet(#[trigger] passages[i]) ==> plain_faithful(
                passages[i],
            ),
        kind_among(passages, n, true) ==> !has_name(st.passages, "StoryStylesheet"@),
        kind_among(passages, n, false) ==> !has_name(st.passages, "StoryScript"@),
    ensures
        well_written(write_passages(passages, n).children, write_passages(passages, n).count),
        write_passages(passages, n).count == plain_upto(passages, n).len() <= n,
        picked(
            write_passages(passages, n).children,
            true,
            write_passages(passages, n).children.len() as int,
        ) == plain_elements(plain_upto(passages, n)),
        run(
            st,
            picked(
                write_passages(passages, n).children,
                false,
                write_passages(passages, n).children.len() as int,
            ),
        ) == (MarkupRead { passages: st.passages + sheets_upto(passages, n), colors: st.colors }),
    decreases n,
{
    lemma_markup_names();
    if n == 0 {
        assert(plain_elements(plain_upto(passages, 0)) =~= Seq::<ElementView>::empty());
        assert(st.passages + sheets_upto(passages, 0) =~= st.passages);
    } else {
        let p = passages[n - 1];
        assert(kind_among(passages, n - 1, true) ==> kind_among(passages, n, true)) by {
            if kind_among(passages, n - 1, true) {
                let i = choose|i: int| 0 <= i < n - 1 && is_kind(#[trigger] passages[i], true);
                assert(0 <= i < n && is_kind(passages[i], true));
            }
        }
        assert(kind_among(passages, n - 1, false) ==> kind_among(passages, n, false)) by {
            if kind_among(passages, n - 1, false) {
                let i = choose|i: int| 0 <= i < n - 1 && is_kind(#[trigger] passages[i], false);
                assert(0 <= i < n && is_kind(passages[i], false));
            }
        }
        lemma_written(passages, n - 1, st);
        let prev = write_passages(passages, n - 1);
        let c = prev.children;
        let now = write_passages(passages, n);
        let read = run(st, picked(c, false, c.len() as int));
        if p.tags.contains("stylesheet"@) {
            assert(is_kind(passages[n - 1], true));
            lemma_add_sheet(
                c,
                prev.count,
                true,
                "stylesheet"@,
                "twine-user-stylesheet"@,
                "text/twine-css"@,
                p.content,
                st,
            );
            lemma_merge_concat(
                st.passages,
                sheets_upto(passages, n - 1),
                "StoryStylesheet"@,
                "stylesheet"@,
                Some(p.content),
            );
        } else if p.tags.contains("script"@) {
            assert(is_kind(passages[n - 1], false));
            lemma_add_sheet(
                c,
                prev.count,
                false,
                "script"@,
                "twine-user-script"@,
                "text/twine-javascript"@,
                p.content,
                st,
            );
            lemma_merge_concat(
                st.passages,
                sheets_upto(passages, n - 1),
                "StoryScript"@,
                "script"@,
                Some(p.content),
            );
        } else {
            assert(!is_sheet(passages[n - 1]));
            let pid = prev.count + 1;
            let e = passage_element(p, pid);
            lemma_passage_key(p, pid);
            lemma_passage_round_trip(p, pid);
            let after = now.children;
            assert(after == c.push(NodeView::Element(e)));
            let len = c.len() as int;
            assert(key_fits(NodeView::Element(e)));
            assert forall|i: int| 0 <= i < after.len() implies (is_named(
                #[trigger] after[i],
                "tw-passagedata"@,
            ) || sheet_node(after[i])) && key_fits(after[i]) by {
                if i < len {
                    assert(after[i] == c[i]);
                }
            }
            assert forall|i: int|
                0 <= i < after.len() && is_named(
                    #[trigger] after[i],
                    "tw-passagedata"@,
                ) implies node_key(after[i]) <= now.count by {
                if i < len {
                    assert(after[i] == c[i]);
                }
            }
            assert forall|i: int, j: int|
                0 <= i < j < after.len() && is_named(
                    #[trigger] after[i],
                    "tw-passagedata"@,
                ) && is_named(#[trigger] after[j], "tw-passagedata"@) implies node_key(after[i])
                <= node_key(after[j]) by {
                assert(after[i] == c[i]);
                if j < len {
                    assert(after[j] == c[j]);
                }
            }
            assert forall|i: int, j: int| 0 <= i < j < after.len() implies !(is_named(
                #[trigger] after[i],
                "style"@,
            ) && is_named(#[trigger] after[j], "style"@)) by {
                assert(after[i] == c[i]);
                if j < len {
                    assert(after[j] == c[j]);
                }
            }
            assert forall|i: int, j: int| 0 <= i < j < after.len() implies !(is_named(
                #[trigger] after[i],
                "script"@,
            ) && is_named(#[trigger] after[j], "script"@)) by {
                assert(after[i] == c[i]);
                if j < len {
                    assert(after[j] == c[j]);
                }
            }
            lemma_picked_prefix(after, c, true, len);
            lemma_picked_prefix(after, c, false, len);
            assert(picked(after, true, len + 1) =~= plain_elements(plain_upto(passages, n)));
        }
    }
}

/// Reading the `tw-passagedata` elements of faithful passages gives the
/// passages back, in order.
pub proof fn lemma_run_plain(st: MarkupRead, plain: Seq<PassageView>, n: int)
    requires
        0 <= n <= plain.len(),
        forall|i: int| 0 <= i < plain.len() ==> plain_faithful(#[trigger] plain[i]),
    ensures
        run(st, plain_elements(plain).take(n)) == (MarkupRead {
            passages: st.passages + plain.take(n),
            ..st
        }),
    decreases n,
{
    let elems = plain_elements(plain);
    if n == 0 {
        assert(st.passages + plain.take(0) =~= st.passages);
    } else {
        lemma_run_plain(st, plain, n - 1);
        assert(elems.take(n).drop_last() =~= elems.take(n - 1));
        assert(elems.take(n).last() == passage_element(plain[n - 1], n as nat));
        assert(plain_faithful(plain[n - 1]));
        lemma_passage_round_trip(plain[n - 1], n as nat);
        assert((st.passages + plain.take(n - 1)).push(plain[n - 1]) =~= st.passages + plain.take(
            n,
        ));
    }
}

/// The `tw-tag` elements of the first `n` colours, the last colour first.
pub open spec fn tag_list(colors: Seq<(Seq<char>, Json)>, n: int) -> Seq<ElementView>
    decreases n,
{
    if n <= 0 {
        Seq::empty()
    } else {
        match colors[n - 1].1 {
            Json::String(c) => seq![tag_element(colors[n - 1].0, c)] + tag_list(colors, n - 1),
            _ => tag_list(colors, n - 1),
        }
    }
}

/// Elements as nodes.
pub open spec fn as_nodes(elems: Seq<ElementView>) -> Seq<NodeView> {
    Seq::new(elems.len(), |i: int| NodeView::Element(elems[i]))
}

/// The `tw-tag` elements go in front of whatever children are there.
pub proof fn lemma_with_tags(children: Seq<NodeView>, colors: Seq<(Seq<char>, Json)>, n: int)
    requires
        0 <= n <= colors.len(),
    ensures
        with_tags(children, colors, n) == as_nodes(tag_list(colors, n)) + children,
    decreases n,
{
    if n == 0 {
        assert(as_nodes(tag_list(colors, 0)) + children =~= children);
    } else {
        lemma_with_tags(children, colors, n - 1);
        match colors[n - 1].1 {
            Json::String(c) => {
                let e = tag_element(colors[n - 1].0, c);
                assert(seq![NodeView::Element(e)] + (as_nodes(tag_list(colors, n - 1)) + children)
                    =~= as_nodes(seq![e] + tag_list(colors, n - 1)) + children);
            },
            _ => {},
        }
    }
}

/// Every element of `tag_list` is a `tw-tag` element with a name and a
/// colour, and without a number.
pub proof fn lemma_tag_list(colors: Seq<(Seq<char>, Json)>, n: int, i: int)
    requires
        0 <= n <= colors.len(),
        0 <= i < tag_list(colors, n).len(),
    ensures
        tag_list(colors, n)[i].name == "tw-tag"@,
        lookup(tag_list(colors, n)[i].attributes, "pid"@) is None,
        pid_key(tag_list(colors, n)[i]) == u32::MAX,
    decreases n,
{
    lemma_markup_names();
    match colors[n - 1].1 {
        Json::String(c) => {
            if i == 0 {
                let e = tag_element(colors[n - 1].0, c);
                lemma_find_key_none(e.attributes, "pid"@);
            } else {
                lemma_tag_list(colors, n - 1, i - 1);
            }
        },
        _ => {
            lemma_tag_list(colors, n - 1, i);
        },
    }
}

/// Elements that are no `tw-passagedata` elements are all picked as such.
pub proof fn lemma_picked_others(elems: Seq<ElementView>, n: int)
    requires
        0 <= n <= elems.len(),
        forall|i: int| 0 <= i < elems.len() ==> (#[trigger] elems[i]).name != "tw-passagedata"@,
    ensures
        picked(as_nodes(elems), true, n) == Seq::<ElementView>::empty(),
        picked(as_nodes(elems), false, n) == elems.take(n),
    decreases n,
{
    if n == 0 {
        assert(elems.take(0) =~= Seq::<ElementView>::empty());
    } else {
        lemma_picked_others(elems, n - 1);
        assert(as_nodes(elems)[n - 1] == NodeView::Element(elems[n - 1]));
        assert(elems.take(n - 1).push(elems[n - 1]) =~= elems.take(n));
    }
}

/// Reading the `tw-tag` elements of string colours leaves the passages
/// alone and maps every tag to its colour.
pub proof fn lemma_run_tags(st: MarkupRead, colors: Seq<(Seq<char>, Json)>, n: int, tag: Seq<char>)
    requires
        0 <= n <= colors.len(),
        forall|i: int| 0 <= i < colors.len() ==> (#[trigger] colors[i]).1 is String,
    ensures
        run(st, tag_list(colors, n)).passages == st.passages,
        lookup(run(st, tag_list(colors, n)).colors, tag) == if lookup(colors.take(n), tag)
            is Some {
            lookup(colors.take(n), tag)
        } else {
            lookup(st.colors, tag)
        },
    decreases n,
{
    lemma_markup_names();
    if n == 0 {
        assert(colors.take(0) =~= Seq::<(Seq<char>, Json)>::empty());
    } else {
        let k = colors[n - 1].0;
        assert(colors[n - 1].1 is String);
        let c = colors[n - 1].1->String_0;
        let e = tag_element(k, c);
        let rest = tag_list(colors, n - 1);
        assert(seq![e].drop_last() =~= Seq::<ElementView>::empty());
        assert(run(st, Seq::<ElementView>::empty()) == st);
        assert(seq![e].last() == e);
        assert(run(st, seq![e]) == absorb(st, e));
        lemma_run_concat(st, seq![e], rest);
        lemma_find_key_is(e.attributes, "name"@, 0);
        lemma_find_key_is(e.attributes, "color"@, 1);
        let next = absorb(st, e);
        assert(next == (MarkupRead { colors: upsert(st.colors, k, Json::String(c)), ..st }));
        lemma_run_tags(next, colors, n - 1, tag);
        lemma_lookup_upsert(st.colors, k, Json::String(c), tag);
        assert(colors.take(n) =~= colors.take(n - 1) + seq![colors[n - 1]]);
        lemma_lookup_concat(colors.take(n - 1), seq![colors[n - 1]], tag);
        if tag == k {
            lemma_find_key_is(seq![colors[n - 1]], tag, 0);
        } else {
            lemma_find_key_none(seq![colors[n - 1]], tag);
        }
    }
}

/// Whether `n` is a `tw-passagedata` element for the passage `name`.
pub open spec fn name_hit(n: NodeView, name: Seq<char>) -> bool {
    n matches NodeView::Element(e) && e.name == "tw-passagedata"@ && lookup(
        e.attributes,
        "name"@,
    ) == Some(name)
}

/// Whether `n` is an element with the number `pid`.
pub open spec fn pid_hit(n: NodeView, pid: Seq<char>) -> bool {
    n matches NodeView::Element(e) && lookup(e.attributes, "pid"@) == Some(pid)
}

/// `start_pid` returns the number of the first element for the passage.
pub proof fn lemma_start_pid_found(children: Seq<NodeView>, name: Seq<char>, i: int, t: int)
    requires
        0 <= i <= t < children.len(),
        name_hit(children[t], name),
        forall|q: int| i <= q < t ==> !name_hit(#[trigger] children[q], name),
    ensures
        start_pid(children, name, i) == lookup(children[t]->Element_0.attributes, "pid"@),
    decreases t - i,
{
    if i < t {
        assert(!name_hit(children[i], name));
        lemma_start_pid_found(children, name, i + 1, t);
    }
}

/// `start_name` returns the name of the first element with the number.
pub proof fn lemma_start_name_found(children: Seq<NodeView>, pid: Seq<char>, i: int, t: int)
    requires
        0 <= i <= t < children.len(),
        pid_hit(children[t], pid),
        forall|q: int| i <= q < t ==> !pid_hit(#[trigger] children[q], pid),
    ensures
        start_name(children, pid, i) == lookup(children[t]->Element_0.attributes, "name"@),
    decreases t - i,
{
    if i < t {
        assert(!pid_hit(children[i], pid));
        lemma_start_name_found(children, pid, i + 1, t);
    }
}

/// A `tw-tag` element as the writer makes it: without a number.
pub open spec fn tag_like(e: ElementView) -> bool {
    e.name == "tw-tag"@ && lookup(e.attributes, "pid"@) is None
}

/// In written children, the name of a passage leads to its number, and the
/// number leads back to the name.
pub proof fn lemma_start_round_trip(
    tags: Seq<ElementView>,
    w: Seq<NodeView>,
    count: nat,
    plain: Seq<PassageView>,
    name: Seq<char>,
)
    requires
        well_written(w, count),
        picked(w, true, w.len() as int) == plain_elements(plain),
        forall|i: int| 0 <= i < plain.len() ==> plain_faithful(#[trigger] plain[i]),
        forall|i: int| 0 <= i < tags.len() ==> tag_like(#[trigger] tags[i]),
        has_name(plain, name),
    ensures
        start_pid(as_nodes(tags) + w, name, 0) == Some(
            decimal((find_key(by_name(plain), name)->Some_0 + 1) as nat),
        ),
        start_name(
            as_nodes(tags) + w,
            decimal((find_key(by_name(plain), name)->Some_0 + 1) as nat),
            0,
        ) == Some(name),
{
    lemma_markup_names();
    lemma_find_key(by_name(plain), name);
    let j = find_key(by_name(plain), name)->Some_0;
    let pid = decimal((j + 1) as nat);
    let n = w.len() as int;
    let tw = lemma_picked_source(w, true, n, j);
    let c = as_nodes(tags) + w;
    let t = tags.len() + tw;
    assert(c[t] == w[tw]);
    assert(plain_elements(plain)[j] == passage_element(plain[j], (j + 1) as nat));
    assert(plain_faithful(plain[j]));
    lemma_passage_round_trip(plain[j], (j + 1) as nat);
    assert(by_name(plain)[j].0 == plain[j].name);
    assert(name_hit(c[t], name));
    assert(pid_hit(c[t], pid));
    assert forall|q: int| 0 <= q < t implies !name_hit(#[trigger] c[q], name) && !pid_hit(
        c[q],
        pid,
    ) by {
        if q < tags.len() {
            assert(c[q] == NodeView::Element(tags[q]));
            assert(tag_like(tags[q]));
        } else {
            let qw = q - tags.len();
            assert(c[q] == w[qw]);
            assert(is_named(w[qw], "tw-passagedata"@) || sheet_node(w[qw]));
            if is_named(w[qw], "tw-passagedata"@) {
                lemma_picked_rank(w, true, tw, qw);
                lemma_picked_rank(w, true, n, qw);
                let r = picked(w, true, qw).len() as int;
                assert(r < j);
                assert(w[qw]->Element_0 == passage_element(plain[r], (r + 1) as nat));
                assert(plain_faithful(plain[r]));
                lemma_passage_round_trip(plain[r], (r + 1) as nat);
                assert(by_name(plain)[r].0 != name);
                if decimal((r + 1) as nat) == pid {
                    lemma_decimal_injective((r + 1) as nat, (j + 1) as nat);
                }
            }
        }
    }
    lemma_start_pid_found(c, name, 0, t);
    lemma_start_name_found(c, pid, 0, t);
}

/// The `tw-tag` elements that the first `n` entries of the story metadata
/// put in front of the children.
pub open spec fn front_tags(meta: Seq<(Seq<char>, Json)>, n: int) -> Seq<ElementView>
    decreases n,
{
    if n <= 0 {
        Seq::empty()
    } else if meta[n - 1].0 == "tag-colors"@ {
        match meta[n - 1].1 {
            Json::Object(c) => tag_list(c, c.len() as int) + front_tags(meta, n - 1),
            _ => front_tags(meta, n - 1),
        }
    } else {
        front_tags(meta, n - 1)
    }
}

/// Every element of `front_tags` is a `tw-tag` element without a number.
pub proof fn lemma_front_tags_like(meta: Seq<(Seq<char>, Json)>, n: int)
    requires
        0 <= n <= meta.len(),
    ensures
        forall|i: int| 0 <= i < front_tags(meta, n).len() ==> tag_like(
            #[trigger] front_tags(meta, n)[i],
        ),
    decreases n,
{
    if n > 0 {
        lemma_front_tags_like(meta, n - 1);
        let now = front_tags(meta, n);
        let prev = front_tags(meta, n - 1);
        if meta[n - 1].0 == "tag-colors"@ {
            match meta[n - 1].1 {
                Json::Object(c) => {
                    let list = tag_list(c, c.len() as int);
                    assert forall|i: int| 0 <= i < now.len() implies tag_like(
                        #[trigger] now[i],
                    ) by {
                        if i < list.len() {
                            lemma_tag_list(c, c.len() as int, i);
                            assert(now[i] == list[i]);
                        } else {
                            assert(now[i] == prev[i - list.len()]);
                        }
                    }
                },
                _ => {},
            }
        }
    }
}

/// The tag colours of story metadata; none where it has no `tag-colors`
/// object.
pub open spec fn tag_colors(meta: Seq<(Seq<char>, Json)>) -> Seq<(Seq<char>, Json)> {
    match lookup(meta, "tag-colors"@) {
        Some(Json::Object(c)) => c,
        _ => Seq::empty(),
    }
}

/// One step of looking a key up in a growing list.
pub proof fn lemma_lookup_take<V>(m: Seq<(Seq<char>, V)>, n: int, k: Seq<char>)
    requires
        0 < n <= m.len(),
    ensures
        lookup(m.take(n), k) == if lookup(m.take(n - 1), k) is Some {
            lookup(m.take(n - 1), k)
        } else if m[n - 1].0 == k {
            Some(m[n - 1].1)
        } else {
            None
        },
        unique_keys(m) ==> lookup(m.take(n - 1), m[n - 1].0) is None,
{
    assert(m.take(n) =~= m.take(n - 1) + seq![m[n - 1]]);
    lemma_lookup_concat(m.take(n - 1), seq![m[n - 1]], k);
    if m[n - 1].0 == k {
        lemma_find_key_is(seq![m[n - 1]], k, 0);
    } else {
        lemma_find_key_none(seq![m[n - 1]], k);
    }
    if unique_keys(m) {
        let init = m.take(n - 1);
        assert forall|j: int| 0 <= j < init.len() implies (#[trigger] init[j]).0 != m[n - 1].0 by {
            assert(init[j] == m[j]);
        }
        lemma_find_key_none(init, m[n - 1].0);
    }
}

/// With unique keys, the `tw-tag` elements in front are those of the one
/// `tag-colors` object.
pub proof fn lemma_front_tags_unique(meta: Seq<(Seq<char>, Json)>, n: int)
    requires
        0 <= n <= meta.len(),
        unique_keys(meta),
    ensures
        front_tags(meta, n) == tag_list(
            tag_colors(meta.take(n)),
            tag_colors(meta.take(n)).len() as int,
        ),
    decreases n,
{
    if n == 0 {
        assert(meta.take(0) =~= Seq::<(Seq<char>, Json)>::empty());
    } else {
        lemma_front_tags_unique(meta, n - 1);
        lemma_lookup_take(meta, n, "tag-colors"@);
        if meta[n - 1].0 == "tag-colors"@ {
            match meta[n - 1].1 {
                Json::Object(c) => {
                    assert(tag_list(c, c.len() as int) + Seq::<ElementView>::empty() =~= tag_list(
                        c,
                        c.len() as int,
                    ));
                },
                _ => {},
            }
        }
    }
}

/// An entry of story metadata that markup holds without loss.  The tag
/// colours are an object of strings; `start` names a passage that is
/// written as a `tw-passagedata` element; any other value is a string, and
/// its key is none of `name`, `hidden` and `startnode`.
pub open spec fn entry_faithful(plain: Seq<PassageView>, key: Seq<char>, value: Json) -> bool {
    if key == "tag-colors"@ {
        value matches Json::Object(c) && forall|i: int|
            0 <= i < c.len() ==> (#[trigger] c[i]).1 is String
    } else if key == "start"@ {
        value matches Json::String(name) && has_name(plain, name)
    } else {
        value is String && key != "name"@ && key != "hidden"@ && key != "startnode"@
    }
}

/// A story that markup holds without loss, but for the order of its
/// metadata and the names and tags of its stylesheet and script passages.
pub open spec fn markup_faithful(story: StoryView) -> bool {
    let n = story.passages.len() as int;
    let plain = plain_upto(story.passages, n);
    &&& story.passages.len() < u32::MAX
    &&& forall|i: int|
        0 <= i < story.passages.len() && !is_sheet(#[trigger] story.passages[i])
            ==> plain_faithful(story.passages[i])
    &&& kind_among(story.passages, n, true) ==> !has_name(plain, "StoryStylesheet"@)
    &&& kind_among(story.passages, n, false) ==> !has_name(plain, "StoryScript"@)
    &&& unique_keys(story.meta)
    &&& forall|i: int|
        0 <= i < story.meta.len() ==> entry_faithful(
            plain,
            (#[trigger] story.meta[i]).0,
            story.meta[i].1,
        )
}

/// The value that the written `tw-storydata` element has for the
/// attribute `key`, after the entries `meta` of the story metadata.
pub open spec fn expected_attr(
    title: Seq<char>,
    plain: Seq<PassageView>,
    meta: Seq<(Seq<char>, Json)>,
    key: Seq<char>,
) -> Option<Seq<char>> {
    if key == "name"@ {
        Some(title)
    } else if key == "startnode"@ {
        match lookup(meta, "start"@) {
            Some(Json::String(name)) => Some(
                decimal((find_key(by_name(plain), name)->Some_0 + 1) as nat),
            ),
            _ => None,
        }
    } else if key == "start"@ || key == "tag-colors"@ {
        None
    } else {
        match lookup(meta, key) {
            Some(Json::String(s)) => Some(s),
            _ => None,
        }
    }
}

/// The plain passages are faithful where all passages that are not
/// stylesheet or script are.
pub proof fn lemma_plain_faithful(passages: Seq<PassageView>, n: int)
    requires
        0 <= n <= passages.len(),
        forall|i: int|
            0 <= i < passages.len() && !is_sheet(#[trigger] passages[i]) ==> plain_faithful(
                passages[i],
            ),
    ensures
        forall|i: int|
            0 <= i < plain_upto(passages, n).len() ==> plain_faithful(
                #[trigger] plain_upto(passages, n)[i],
            ),
    decreases n,
{
    if n > 0 {
        lemma_plain_faithful(passages, n - 1);
        let prev = plain_upto(passages, n - 1);
        let now = plain_upto(passages, n);
        assert forall|i: int| 0 <= i < now.len() implies plain_faithful(#[trigger] now[i]) by {
            if i < prev.len() {
                assert(now[i] == prev[i]);
            } else {
                assert(now[i] == passages[n - 1]);
            }
        }
    }
}

/// What the written `tw-storydata` element looks like after the first `n`
/// entries of the story metadata.
pub proof fn lemma_applied(
    title: Seq<char>,
    w: Seq<NodeView>,
    count: nat,
    plain: Seq<PassageView>,
    meta: Seq<(Seq<char>, Json)>,
    n: int,
)
    requires
        0 <= n <= meta.len(),
        unique_keys(meta),
        forall|i: int|
            0 <= i < meta.len() ==> entry_faithful(plain, (#[trigger] meta[i]).0, meta[i].1),
        well_written(w, count),
        picked(w, true, w.len() as int) == plain_elements(plain),
        forall|i: int| 0 <= i < plain.len() ==> plain_faithful(#[trigger] plain[i]),
    ensures
        ({
            let e = apply_meta_upto(
                ElementView {
                    name: "tw-storydata"@,
                    attributes: seq![("name"@, title)],
                    children: w,
                },
                meta,
                n,
            );
            &&& e.name == "tw-storydata"@
            &&& e.children == as_nodes(front_tags(meta, n)) + w
            &&& unique_keys(e.attributes)
            &&& forall|k: Seq<char>| #[trigger]
                lookup(e.attributes, k) == expected_attr(title, plain, meta.take(n), k)
        }),
    decreases n,
{
    lemma_markup_names();
    let start = ElementView {
        name: "tw-storydata"@,
        attributes: seq![("name"@, title)],
        children: w,
    };
    let e = apply_meta_upto(start, meta, n);
    if n == 0 {
        assert(as_nodes(front_tags(meta, 0)) + w =~= w);
        assert(meta.take(0) =~= Seq::<(Seq<char>, Json)>::empty());
        assert forall|k: Seq<char>| #[trigger]
            lookup(e.attributes, k) == expected_attr(title, plain, meta.take(0), k) by {
            if k == "name"@ {
                lemma_find_key_is(e.attributes, k, 0);
            } else {
                lemma_find_key_none(e.attributes, k);
            }
        }
    } else {
        lemma_applied(title, w, count, plain, meta, n - 1);
        let prev = apply_meta_upto(start, meta, n - 1);
        let key = meta[n - 1].0;
        let value = meta[n - 1].1;
        assert(entry_faithful(plain, meta[n - 1].0, meta[n - 1].1));
        assert(e == apply_meta(prev, key, value));
        lemma_lookup_take(meta, n, "start"@);
        lemma_lookup_take(meta, n, key);
        if key == "start"@ {
            let name = value->String_0;
            lemma_front_tags_like(meta, n - 1);
            lemma_start_round_trip(front_tags(meta, n - 1), w, count, plain, name);
            let pid = decimal((find_key(by_name(plain), name)->Some_0 + 1) as nat);
            assert(e.attributes == upsert(prev.attributes, "startnode"@, pid));
            lemma_upsert_unique(prev.attributes, "startnode"@, pid);
            assert forall|k: Seq<char>| #[trigger]
                lookup(e.attributes, k) == expected_attr(title, plain, meta.take(n), k) by {
                lemma_lookup_upsert(prev.attributes, "startnode"@, pid, k);
                lemma_lookup_take(meta, n, k);
            }
        } else if key == "tag-colors"@ {
            let c = value->Object_0;
            lemma_with_tags(prev.children, c, c.len() as int);
            assert(as_nodes(tag_list(c, c.len() as int)) + (as_nodes(front_tags(meta, n - 1)) + w)
                =~= as_nodes(tag_list(c, c.len() as int) + front_tags(meta, n - 1)) + w);
            assert forall|k: Seq<char>| #[trigger]
                lookup(e.attributes, k) == expected_attr(title, plain, meta.take(n), k) by {
                lemma_lookup_take(meta, n, k);
            }
        } else {
            let s = value->String_0;
            assert(e.attributes == upsert(prev.attributes, key, s));
            lemma_upsert_unique(prev.attributes, key, s);
            assert forall|k: Seq<char>| #[trigger]
                lookup(e.attributes, k) == expected_attr(title, plain, meta.take(n), k) by {
                lemma_lookup_upsert(prev.attributes, key, s, k);
                lemma_lookup_take(meta, n, k);
            }
        }
    }
}

/// Looking a key up in attributes read as metadata gives the attribute
/// value as a JSON string.
pub proof fn lemma_lookup_as_meta(attrs: Seq<(Seq<char>, Seq<char>)>, k: Seq<char>)
    ensures
        lookup(as_meta(attrs), k) == match lookup(attrs, k) {
            Some(s) => Some(Json::String(s)),
            None => None,
        },
        unique_keys(attrs) ==> unique_keys(as_meta(attrs)),
{
    let m = as_meta(attrs);
    lemma_find_key(attrs, k);
    match find_key(attrs, k) {
        Some(i) => {
            assert(m[i].0 == attrs[i].0);
            assert forall|j: int| 0 <= j < i implies (#[trigger] m[j]).0 != k by {
                assert(m[j].0 == attrs[j].0);
            }
            lemma_find_key_is(m, k, i);
        },
        None => {
            assert forall|j: int| 0 <= j < m.len() implies (#[trigger] m[j]).0 != k by {
                assert(m[j].0 == attrs[j].0);
            }
            lemma_find_key_none(m, k);
        },
    }
    if unique_keys(attrs) {
        assert forall|i: int, j: int| 0 <= i < j < m.len() implies (#[trigger] m[i]).0 != (
        #[trigger] m[j]).0 by {
            assert(m[i].0 == attrs[i].0 && m[j].0 == attrs[j].0);
        }
    }
}

/// Writing a story as markup and reading the markup gives back the title,
/// the passages and the metadata of the story, with no warning.
///
/// The passages that are neither stylesheet nor script come first, in
/// order and unchanged.  Behind them stand the stylesheet and the script,
/// each merged into one passage.  Every key of the story metadata maps to
/// the value it had; the tag colours are an object that maps every tag to
/// the colour it had.
pub proof fn lemma_markup_round_trip(story: StoryView)
    requires
        markup_faithful(story),
    ensures
        ({
            let (read, warnings) = read_storydata(write_storydata(story));
            let n = story.passages.len() as int;
            &&& warnings == Seq::<WarningView>::empty()
            &&& read.title == story.title
            &&& read.passages == plain_upto(story.passages, n) + sheets_upto(story.passages, n)
            &&& forall|k: Seq<char>|
                k != "tag-colors"@ ==> #[trigger] lookup(read.meta, k) == lookup(story.meta, k)
            &&& lookup(read.meta, "tag-colors"@) matches Some(Json::Object(colors))
                && forall|t: Seq<char>| #[trigger]
                lookup(colors, t) == lookup(tag_colors(story.meta), t)
        }),
{
    lemma_markup_names();
    let ps = story.passages;
    let n = ps.len() as int;
    let meta = story.meta;
    let plain = plain_upto(ps, n);
    let nothing = MarkupRead { passages: Seq::empty(), colors: Seq::empty() };
    lemma_plain_faithful(ps, n);
    assert(!has_name(nothing.passages, "StoryStylesheet"@));
    assert(!has_name(nothing.passages, "StoryScript"@));
    lemma_written(ps, n, nothing);
    let written = write_passages(ps, n);
    let w = written.children;
    lemma_applied(story.title, w, written.count, plain, meta, meta.len() as int);
    let e = write_storydata(story);
    assert(meta.take(meta.len() as int) =~= meta);
    let front = front_tags(meta, meta.len() as int);
    lemma_front_tags_like(meta, meta.len() as int);
    lemma_front_tags_unique(meta, meta.len() as int);
    let tc = tag_colors(meta);
    assert(front == tag_list(tc, tc.len() as int));
    let c = e.children;
    assert(c == as_nodes(front) + w);
    // The order in which the children are read.
    assert forall|i: int| 0 <= i < c.len() implies key_fits(#[trigger] c[i]) by {
        if i < front.len() {
            assert(c[i] == NodeView::Element(front[i]));
            assert(tag_like(front[i]));
        } else {
            assert(c[i] == w[i - front.len()]);
        }
    }
    assert forall|i: int, j: int|
        0 <= i < j < c.len() && is_named(#[trigger] c[i], "tw-passagedata"@) && is_named(
            #[trigger] c[j],
            "tw-passagedata"@,
        ) implies node_key(c[i]) <= node_key(c[j]) by {
        if i < front.len() {
            assert(c[i] == NodeView::Element(front[i]));
            assert(tag_like(front[i]));
        } else {
            assert(c[i] == w[i - front.len()]);
            assert(c[j] == w[j - front.len()]);
        }
    }
    lemma_sort_children(c, c.len() as int);
    lemma_picked_concat(as_nodes(front), w, true, w.len() as int);
    lemma_picked_concat(as_nodes(front), w, false, w.len() as int);
    assert forall|i: int| 0 <= i < front.len() implies (#[trigger] front[i]).name
        != "tw-passagedata"@ by {
        assert(tag_like(front[i]));
    }
    lemma_picked_others(front, front.len() as int);
    assert(front.take(front.len() as int) =~= front);
    let numbered = plain_elements(plain);
    let sheets = picked(w, false, w.len() as int);
    let sorted = sort_by_pid(elements_upto(c, c.len() as int));
    assert(sorted =~= numbered + (front + sheets));
    // What reading them gives.
    lemma_absorb_upto_run(sorted, sorted.len() as int);
    assert(sorted.take(sorted.len() as int) =~= sorted);
    lemma_run_concat(nothing, numbered, front + sheets);
    let first = run(nothing, numbered);
    lemma_run_plain(nothing, plain, plain.len() as int);
    assert(numbered.take(plain.len() as int) =~= numbered);
    assert(nothing.passages + plain.take(plain.len() as int) =~= plain);
    assert(first == (MarkupRead { passages: plain, colors: Seq::empty() }));
    lemma_run_concat(first, front, sheets);
    let second = run(first, front);
    lemma_find_key(meta, "tag-colors"@);
    assert forall|i: int| 0 <= i < tc.len() implies (#[trigger] tc[i]).1 is String by {
        let at = find_key(meta, "tag-colors"@)->Some_0;
        assert(entry_faithful(plain, meta[at].0, meta[at].1));
    }
    lemma_run_tags(first, tc, tc.len() as int, Seq::empty());
    assert(second.passages == plain);
    lemma_written(ps, n, second);
    let third = run(second, sheets);
    let read = absorb_upto(sorted, sorted.len() as int);
    assert(read == third);
    assert(read.passages == plain + sheets_upto(ps, n));
    assert(read.colors == second.colors);
    // The title.
    let attrs = e.attributes;
    lemma_attrs_meta_unique(attrs);
    let m0 = as_meta(attrs);
    lemma_lookup_as_meta(attrs, "name"@);
    lemma_lookup_as_meta(attrs, "startnode"@);
    let mh = without(m0, "hidden"@);
    lemma_without_unique(m0, "hidden"@);
    lemma_lookup_without(m0, "hidden"@, "name"@);
    assert(lookup(mh, "name"@) == Some(Json::String(story.title)));
    // The metadata.
    let m1 = without(mh, "name"@);
    lemma_without_unique(mh, "name"@);
    let m2 = without(m1, "startnode"@);
    lemma_without_unique(m1, "startnode"@);
    lemma_lookup_without(m0, "hidden"@, "startnode"@);
    lemma_lookup_without(mh, "name"@, "startnode"@);
    lemma_find_key(meta, "start"@);
    let started = lookup(meta, "start"@);
    if started is Some {
        let at = find_key(meta, "start"@)->Some_0;
        assert(entry_faithful(plain, meta[at].0, meta[at].1));
        let name = started->Some_0->String_0;
        lemma_start_round_trip(front, w, written.count, plain, name);
    }
    let m3 = match lookup(m1, "startnode"@) {
        Some(Json::String(pid)) => match start_name(c, pid, 0) {
            Some(name) => upsert(m2, "start"@, Json::String(name)),
            None => m2,
        },
        _ => m2,
    };
    let got = upsert(m3, "tag-colors"@, Json::Object(read.colors));
    assert(read_storydata(e).0.meta == got);
    assert forall|k: Seq<char>| k != "tag-colors"@ implies #[trigger] lookup(got, k) == lookup(
        meta,
        k,
    ) by {
        lemma_lookup_upsert(m3, "tag-colors"@, Json::Object(read.colors), k);
        lemma_lookup_as_meta(attrs, k);
        lemma_lookup_without(m0, "hidden"@, k);
        lemma_lookup_without(mh, "name"@, k);
        lemma_lookup_without(m1, "startnode"@, k);
        lemma_find_key(meta, k);
        if lookup(meta, k) is Some {
            let at = find_key(meta, k)->Some_0;
            assert(entry_faithful(plain, meta[at].0, meta[at].1));
        }
        if started is Some {
            let name = started->Some_0->String_0;
            lemma_lookup_upsert(m2, "start"@, Json::String(name), k);
        }
    }
    lemma_lookup_upsert(m3, "tag-colors"@, Json::Object(read.colors), "tag-colors"@);
    assert forall|t: Seq<char>| #[trigger] lookup(read.colors, t) == lookup(tc, t) by {
        lemma_run_tags(first, tc, tc.len() as int, t);
        assert(tc.take(tc.len() as int) =~= tc);
    }
}

} // verus!
