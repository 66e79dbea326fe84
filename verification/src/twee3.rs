//! The Twee 3 notation: `:: Name [tags] {metadata}` header lines, each
//! followed by the text of its passage.

use vstd::prelude::*;
use crate::json::{compact_json, parsed_json, pretty_json, Json, JsonMap, JsonValue};
use crate::story::{passages_view, warnings_view, Error, Passage, PassageView, Story, StoryView,
    Warning, WarningView};
use crate::text::{blank, chars_of, is_blank, is_space, is_whitespace, push_text, same_text,
    slice_chars, string_from_chars, strings_view, trim, trim_end, trimmed, trimmed_end};

verus! {

/// The position of the first line feed of `s` at or after `from`, or the
/// length of `s` where there is none.
pub open spec fn line_end(s: Seq<char>, from: int) -> int
    decreases s.len() - from,
{
    if from < 0 || from >= s.len() {
        s.len() as int
    } else if s[from] == '\n' {
        from
    } else {
        line_end(s, from + 1)
    }
}

/// Whether a line of `s` starts at `p`: at the start of the text, and after
/// each line feed.
pub open spec fn at_line_start(s: Seq<char>, p: int) -> bool {
    p == 0 || (0 < p <= s.len() && s[p - 1] == '\n')
}

/// Whether a passage header starts at `p`: a line that begins with `::` and
/// ends in a line feed.
pub open spec fn is_header(s: Seq<char>, p: int) -> bool {
    &&& 0 <= p
    &&& p + 2 <= s.len()
    &&& at_line_start(s, p)
    &&& s[p] == ':'
    &&& s[p + 1] == ':'
    &&& line_end(s, p + 2) < s.len()
}

/// The position of the first passage header of `s` at or after `from`, or
/// the length of `s` where there is none.
pub open spec fn next_header(s: Seq<char>, from: int) -> int
    decreases s.len() - from,
{
    if from < 0 || from >= s.len() {
        s.len() as int
    } else if is_header(s, from) {
        from
    } else {
        next_header(s, from + 1)
    }
}

/// `line_end` returns a position from `from` on, with no line feed before
/// it, and a line feed at it unless it is the end of the text.
pub proof fn lemma_line_end(s: Seq<char>, from: int)
    requires
        0 <= from <= s.len(),
    ensures
        from <= line_end(s, from) <= s.len(),
        forall|q: int| from <= q < line_end(s, from) ==> s[q] != '\n',
        line_end(s, from) < s.len() ==> s[line_end(s, from)] == '\n',
    decreases s.len() - from,
{
    if from < s.len() && s[from] != '\n' {
        lemma_line_end(s, from + 1);
    }
}

/// A position with no line feed before it and a line feed at it, or the end
/// of the text, is what `line_end` returns.
pub proof fn lemma_line_end_is(s: Seq<char>, from: int, end: int)
    requires
        0 <= from <= end <= s.len(),
        forall|q: int| from <= q < end ==> s[q] != '\n',
        end < s.len() ==> s[end] == '\n',
    ensures
        line_end(s, from) == end,
    decreases end - from,
{
    if from < end {
        lemma_line_end_is(s, from + 1, end);
    }
}

/// `next_header` returns a position from `from` on, with no header before
/// it, and a header at it unless it is the end of the text.
pub proof fn lemma_next_header(s: Seq<char>, from: int)
    requires
        0 <= from <= s.len(),
    ensures
        from <= next_header(s, from) <= s.len(),
        forall|q: int| from <= q < next_header(s, from) ==> !is_header(s, q),
        next_header(s, from) < s.len() ==> is_header(s, next_header(s, from)),
    decreases s.len() - from,
{
    if from < s.len() && !is_header(s, from) {
        lemma_next_header(s, from + 1);
    }
}

/// A position with no header before it and a header at it, or the end of
/// the text, is what `next_header` returns.
pub proof fn lemma_next_header_is(s: Seq<char>, from: int, at: int)
    requires
        0 <= from <= at <= s.len(),
        forall|q: int| from <= q < at ==> !is_header(s, q),
        at < s.len() ==> is_header(s, at),
    ensures
        next_header(s, from) == at,
    decreases at - from,
{
    if from < at {
        lemma_next_header_is(s, from + 1, at);
    }
}

/// Finds the end of the line that `from` lies in.
pub fn find_line_end(v: &Vec<char>, from: usize) -> (end: usize)
    requires
        from <= v@.len(),
    ensures
        end == line_end(v@, from as int),
        from <= end <= v@.len(),
{
    let mut i: usize = from;
    while i < v.len() && v[i] != '\n'
        invariant
            from <= i <= v@.len(),
            forall|q: int| from <= q < i ==> v@[q] != '\n',
        decreases v@.len() - i,
    {
        i += 1;
    }
    proof {
        lemma_line_end_is(v@, from as int, i as int);
    }
    i
}

/// Finds the next passage header, searching from the start of a line.
pub fn find_header(v: &Vec<char>, from: usize) -> (at: usize)
    requires
        from <= v@.len(),
        at_line_start(v@, from as int),
    ensures
        at == next_header(v@, from as int),
        from <= at <= v@.len(),
{
    let mut p: usize = from;
    loop
        invariant
            from <= p <= v@.len(),
            at_line_start(v@, p as int),
            forall|q: int| from <= q < p ==> !is_header(v@, q),
        decreases v@.len() - p,
    {
        if v.len() - p < 2 {
            proof {
                lemma_next_header_is(v@, from as int, v@.len() as int);
            }
            return v.len();
        }
        let end = find_line_end(v, p);
        proof {
            lemma_line_end(v@, p as int);
        }
        if v[p] == ':' && v[p + 1] == ':' {
            proof {
                lemma_line_end_is(v@, p + 2, end as int);
            }
            if end < v.len() {
                proof {
                    lemma_next_header_is(v@, from as int, p as int);
                }
                return p;
            }
        }
        if end >= v.len() {
            proof {
                assert forall|q: int| p <= q < v@.len() implies !is_header(v@, q) by {
                    if q > p && at_line_start(v@, q) {
                        assert(v@[q - 1] != '\n');
                    }
                    if q == p && is_header(v@, q) {
                        assert(false);
                    }
                }
                lemma_next_header_is(v@, from as int, v@.len() as int);
            }
            return v.len();
        }
        proof {
            assert forall|q: int| p <= q < end + 1 implies !is_header(v@, q) by {
                if q > p && at_line_start(v@, q) {
                    assert(v@[q - 1] != '\n');
                }
            }
        }
        p = end + 1;
    }
}

/// Where the reading of a header line stands.
#[derive(Clone, Copy, Debug, PartialEq, Eq, Structural)]
pub enum HeaderMode {
    /// In the name of the passage.
    Title,
    /// Between `[` and `]`.
    Tags,
    /// After `]`.
    Between,
}

/// What has been read of a header line.
pub struct HeaderScan {
    pub mode: HeaderMode,
    /// The last character was a backslash that escapes the next one.
    pub escape: bool,
    pub name: Seq<char>,
    /// The tags that are complete.
    pub tags: Seq<Seq<char>>,
    /// The tag that is being read.
    pub tag: Seq<char>,
    /// The metadata text, once a `{` has opened it.
    pub meta: Option<Seq<char>>,
}

/// What a header line says.
pub struct HeaderView {
    /// The name, without the white space around it.
    pub name: Seq<char>,
    pub tags: Seq<Seq<char>>,
    /// The metadata text; `{}` where the line has none.
    pub meta: Seq<char>,
    /// The line opened its tags with `[` and did not close them.
    pub unclosed: bool,
}

/// Nothing read yet.
pub open spec fn scan_start() -> HeaderScan {
    HeaderScan {
        mode: HeaderMode::Title,
        escape: false,
        name: Seq::empty(),
        tags: Seq::empty(),
        tag: Seq::empty(),
        meta: None,
    }
}

/// Whether `c` opens the metadata: a `{` in the name that no backslash
/// escapes, or a `{` after the tags.
pub open spec fn opens_meta(st: HeaderScan, c: char) -> bool {
    c == '{' && ((st.mode == HeaderMode::Title && !st.escape) || st.mode == HeaderMode::Between)
}

/// The reading of one character that neither ends the line nor opens the
/// metadata.
pub open spec fn scan_step(st: HeaderScan, c: char) -> HeaderScan {
    match st.mode {
        HeaderMode::Title => {
            if st.escape {
                HeaderScan { escape: false, name: st.name.push(c), ..st }
            } else if c == '[' {
                HeaderScan { mode: HeaderMode::Tags, ..st }
            } else if c == '\\' {
                HeaderScan { escape: true, ..st }
            } else {
                HeaderScan { name: st.name.push(c), ..st }
            }
        },
        HeaderMode::Tags => {
            if st.escape {
                HeaderScan { escape: false, tag: st.tag.push(c), ..st }
            } else if c == '\\' {
                HeaderScan { escape: true, ..st }
            } else if c == ']' {
                HeaderScan {
                    mode: HeaderMode::Between,
                    tags: if st.tag.len() > 0 {
                        st.tags.push(st.tag)
                    } else {
                        st.tags
                    },
                    tag: Seq::empty(),
                    ..st
                }
            } else if is_space(c) {
                if st.tag.len() > 0 {
                    HeaderScan { tags: st.tags.push(st.tag), tag: Seq::empty(), ..st }
                } else {
                    st
                }
            } else {
                HeaderScan { tag: st.tag.push(c), ..st }
            }
        },
        HeaderMode::Between => st,
    }
}

/// The reading of a header line from position `i` on, up to the first
/// carriage return or line feed.  Metadata runs from its `{` to the end of
/// the line, and nothing is read after it.
pub open spec fn scan_line(s: Seq<char>, i: int, st: HeaderScan) -> HeaderScan
    decreases s.len() - i,
{
    if i < 0 || i >= s.len() || s[i] == '\r' || s[i] == '\n' {
        st
    } else if opens_meta(st, s[i]) {
        HeaderScan { meta: Some(s.subrange(i, line_end(s, i))), ..st }
    } else {
        scan_line(s, i + 1, scan_step(st, s[i]))
    }
}

/// What a line says once it has been read: a tag that the end of the line
/// cut short still counts, and blank or missing metadata reads `{}`.
pub open spec fn header_of(st: HeaderScan) -> HeaderView {
    HeaderView {
        name: trim(st.name),
        tags: if st.tag.len() > 0 {
            st.tags.push(st.tag)
        } else {
            st.tags
        },
        meta: match st.meta {
            Some(m) => if is_blank(m) {
                "{}"@
            } else {
                m
            },
            None => "{}"@,
        },
        unclosed: st.mode == HeaderMode::Tags,
    }
}

/// The header line whose text starts at `start`, after the `::`.
pub open spec fn header_at(s: Seq<char>, start: int) -> HeaderView {
    header_of(scan_line(s, start, scan_start()))
}

/// A header line, read.
#[derive(Debug, Clone)]
pub struct Header {
    /// The name, without the white space around it.
    pub name: String,
    pub tags: Vec<String>,
    /// The metadata text; `{}` where the line has none.
    pub meta: String,
    /// The line opened its tags with `[` and did not close them.
    pub unclosed: bool,
}

impl View for Header {
    type V = HeaderView;

    open spec fn view(&self) -> HeaderView {
        HeaderView {
            name: self.name@,
            tags: strings_view(self.tags@),
            meta: self.meta@,
            unclosed: self.unclosed,
        }
    }
}

/// Reads the header line whose text starts at `start`, after the `::`.
pub fn scan_header(v: &Vec<char>, start: usize) -> (h: Header)
    requires
        start <= v@.len(),
    ensures
        h@ == header_at(v@, start as int),
{
    let mut mode = HeaderMode::Title;
    let mut escape = false;
    let mut name: Vec<char> = Vec::new();
    let mut tags: Vec<String> = Vec::new();
    let mut tag: Vec<char> = Vec::new();
    let mut meta: Option<Vec<char>> = None;
    let mut i: usize = start;
    let ghost goal = scan_line(v@, start as int, scan_start());
    assert(strings_view(tags@) =~= Seq::<Seq<char>>::empty());
    while i < v.len() && v[i] != '\r' && v[i] != '\n' && meta.is_none()
        invariant
            start <= i <= v@.len(),
            meta is None ==> goal == scan_line(
                v@,
                i as int,
                HeaderScan {
                    mode,
                    escape,
                    name: name@,
                    tags: strings_view(tags@),
                    tag: tag@,
                    meta: None,
                },
            ),
            meta matches Some(m) ==> goal == (HeaderScan {
                mode,
                escape,
                name: name@,
                tags: strings_view(tags@),
                tag: tag@,
                meta: Some(m@),
            }),
        decreases v@.len() - i + (if meta is None { 1int } else { 0int }),
    {
        let c = v[i];
        let ghost st = HeaderScan {
            mode,
            escape,
            name: name@,
            tags: strings_view(tags@),
            tag: tag@,
            meta: None,
        };
        if c == '{' && ((mode == HeaderMode::Title && !escape) || mode == HeaderMode::Between) {
            assert(opens_meta(st, c));
            let end = find_line_end(v, i);
            meta = Some(slice_chars(v, i, end));
        } else {
            assert(!opens_meta(st, c));
            match mode {
                HeaderMode::Title => {
                    if escape {
                        escape = false;
                        name.push(c);
                    } else if c == '[' {
                        mode = HeaderMode::Tags;
                    } else if c == '\\' {
                        escape = true;
                    } else {
                        name.push(c);
                    }
                },
                HeaderMode::Tags => {
                    if escape {
                        escape = false;
                        tag.push(c);
                    } else if c == '\\' {
                        escape = true;
                    } else if c == ']' {
                        if tag.len() > 0 {
                            let t = string_from_chars(&tag);
                            let ghost before = tags@;
                            tags.push(t);
                            assert(strings_view(tags@) =~= strings_view(before).push(tag@));
                            tag = Vec::new();
                        }
                        mode = HeaderMode::Between;
                        assert(tag@ =~= Seq::<char>::empty());
                    } else if is_whitespace(c) {
                        if tag.len() > 0 {
                            let t = string_from_chars(&tag);
                            let ghost before = tags@;
                            tags.push(t);
                            assert(strings_view(tags@) =~= strings_view(before).push(tag@));
                            tag = Vec::new();
                        }
                    } else {
                        tag.push(c);
                    }
                },
                HeaderMode::Between => {},
            }
            assert(scan_step(st, c) == HeaderScan {
                mode,
                escape,
                name: name@,
                tags: strings_view(tags@),
                tag: tag@,
                meta: None,
            });
            i += 1;
        }
    }
    let unclosed = mode == HeaderMode::Tags;
    if tag.len() > 0 {
        let t = string_from_chars(&tag);
        let ghost before = tags@;
        tags.push(t);
        assert(strings_view(tags@) =~= strings_view(before).push(tag@));
    }
    let meta_text = match meta {
        Some(m) => {
            if blank(&m) {
                "{}".to_owned()
            } else {
                string_from_chars(&m)
            }
        },
        None => "{}".to_owned(),
    };
    let name_text = string_from_chars(&trimmed(&name));
    Header { name: name_text, tags, meta: meta_text, unclosed }
}

/// Whether the backslash of an escaped `::` stands at `i`: at the start of a
/// line, with `::` after it.
pub open spec fn escapes_header(s: Seq<char>, i: int) -> bool {
    &&& 0 <= i
    &&& i + 2 < s.len()
    &&& at_line_start(s, i)
    &&& s[i] == '\\'
    &&& s[i + 1] == ':'
    &&& s[i + 2] == ':'
}

/// The first `n` characters of `s`, without the backslash of each escaped
/// `::`.
pub open spec fn unescape_upto(s: Seq<char>, n: int) -> Seq<char>
    decreases n,
{
    if n <= 0 {
        Seq::empty()
    } else if escapes_header(s, n - 1) {
        unescape_upto(s, n - 1)
    } else {
        unescape_upto(s, n - 1).push(s[n - 1])
    }
}

/// Passage text as it was meant: every `\::` at the start of a line reads
/// `::`.
pub open spec fn unescape(s: Seq<char>) -> Seq<char> {
    unescape_upto(s, s.len() as int)
}

/// Passage text between `lo` and `hi`, with every `\::` at the start of a
/// line turned into `::`.  The text counts as starting a line at `lo`.
pub fn unescape_content(v: &Vec<char>, lo: usize, hi: usize) -> (r: Vec<char>)
    requires
        lo <= hi <= v@.len(),
    ensures
        r@ == unescape(v@.subrange(lo as int, hi as int)),
{
    let ghost s = v@.subrange(lo as int, hi as int);
    let mut r: Vec<char> = Vec::new();
    let mut i: usize = lo;
    while i < hi
        invariant
            lo <= i <= hi <= v@.len(),
            s == v@.subrange(lo as int, hi as int),
            r@ == unescape_upto(s, i - lo),
        decreases hi - i,
    {
        let starts = i == lo || v[i - 1] == '\n';
        if starts && hi - i > 2 && v[i] == '\\' && v[i + 1] == ':' && v[i + 2] == ':' {
            assert(escapes_header(s, i - lo));
        } else {
            assert(!escapes_header(s, i - lo));
            r.push(v[i]);
        }
        i += 1;
    }
    r
}

/// What has been read of a Twee text.
pub struct ReadState {
    /// The story title; empty until a `StoryTitle` passage sets it.
    pub title: Seq<char>,
    /// The story metadata, once a `StoryData` passage has been read.
    pub meta: Option<Seq<(Seq<char>, Json)>>,
    pub passages: Seq<PassageView>,
    pub warnings: Seq<WarningView>,
}

/// Nothing read yet.
pub open spec fn read_start() -> ReadState {
    ReadState { title: Seq::empty(), meta: None, passages: Seq::empty(), warnings: Seq::empty() }
}

/// The entries of a JSON object, and `None` for any other outcome of
/// reading JSON.
pub open spec fn object_of(parsed: Option<Json>) -> Option<Seq<(Seq<char>, Json)>> {
    match parsed {
        Some(Json::Object(o)) => Some(o),
        _ => None,
    }
}

/// Whether one of `passages` has the name `name`.
pub open spec fn has_passage(passages: Seq<PassageView>, name: Seq<char>) -> bool {
    exists|i: int| 0 <= i < passages.len() && (#[trigger] passages[i]).name == name
}

/// The text whose JSON a passage needs: the content of `StoryData`, the
/// header's metadata for every other passage.
pub open spec fn json_source(h: HeaderView, content: Seq<char>) -> Seq<char> {
    if h.name == "StoryData"@ {
        content
    } else {
        h.meta
    }
}

/// The state after one more passage: its header `h`, its text `content`
/// with escapes resolved, and `parsed`, what reading `json_source` as JSON
/// gave.
///
/// Unclosed tags are reported first.  A passage without a name is reported
/// and dropped.  `StoryTitle` sets the title to its trimmed text and
/// `StoryData` sets the story metadata, each reporting a duplicate when it
/// was set before.  Any other passage is appended with its text trimmed at
/// the end, unless one of its name is there already: the first one wins.
/// Metadata that is not a JSON object is reported and reads as empty.
pub open spec fn record(
    st: ReadState,
    h: HeaderView,
    content: Seq<char>,
    parsed: Option<Json>,
) -> ReadState {
    let w0 = if h.unclosed {
        st.warnings.push(WarningView::PassageTagsMalformed(h.name))
    } else {
        st.warnings
    };
    if h.name.len() == 0 {
        ReadState { warnings: w0.push(WarningView::PassageNameMissing), ..st }
    } else if h.name == "StoryTitle"@ {
        ReadState {
            title: trim(content),
            warnings: if st.title.len() != 0 {
                w0.push(WarningView::PassageDuplicated(h.name))
            } else {
                w0
            },
            ..st
        }
    } else if h.name == "StoryData"@ {
        let w1 = if st.meta is Some {
            w0.push(WarningView::PassageDuplicated(h.name))
        } else {
            w0
        };
        match object_of(parsed) {
            Some(o) => ReadState { meta: Some(o), warnings: w1, ..st },
            None => ReadState {
                meta: Some(Seq::empty()),
                warnings: w1.push(WarningView::StoryMetadataMalformed),
                ..st
            },
        }
    } else {
        let w1 = if object_of(parsed) is Some {
            w0
        } else {
            w0.push(WarningView::PassageMetadataMalformed(h.name))
        };
        if has_passage(st.passages, h.name) {
            ReadState { warnings: w1.push(WarningView::PassageDuplicated(h.name)), ..st }
        } else {
            ReadState {
                passages: st.passages.push(
                    PassageView {
                        name: h.name,
                        tags: h.tags,
                        meta: match object_of(parsed) {
                            Some(o) => o,
                            None => Seq::empty(),
                        },
                        content: trim_end(content),
                    },
                ),
                warnings: w1,
                ..st
            }
        }
    }
}

/// The story and the warnings at the end of the text.  A story whose title
/// is still empty is reported as missing its title.
pub open spec fn finish(st: ReadState) -> (StoryView, Seq<WarningView>) {
    (
        StoryView {
            title: st.title,
            passages: st.passages,
            meta: match st.meta {
                Some(m) => m,
                None => Seq::empty(),
            },
        },
        if st.title.len() == 0 {
            st.warnings.push(WarningView::StoryTitleMissing)
        } else {
            st.warnings
        },
    )
}

/// The state after the passage whose header starts at `pos` and all that
/// follow it.  The text of a passage runs from the end of its header line
/// to the next header, or to the end of `s`.
pub open spec fn read_from(s: Seq<char>, pos: int, st: ReadState) -> ReadState
    decreases s.len() - pos,
{
    if pos < 0 || pos + 2 > s.len() {
        st
    } else {
        let body = line_end(s, pos + 2) + 1;
        let next = next_header(s, body);
        let h = header_at(s, pos + 2);
        let content = unescape(s.subrange(body, next));
        let after = record(st, h, content, parsed_json(json_source(h, content)));
        if pos < next < s.len() {
            read_from(s, next, after)
        } else {
            after
        }
    }
}

/// The story that a Twee text holds, and the warnings of reading it.  Text
/// before the first header belongs to no passage.
pub open spec fn read_twee(s: Seq<char>) -> (StoryView, Seq<WarningView>) {
    let first = next_header(s, 0);
    if first < s.len() {
        finish(read_from(s, first, read_start()))
    } else {
        finish(read_start())
    }
}

/// A Twee text in the reading: the story so far and the warnings so far.
#[derive(Debug)]
pub struct TweeReader {
    /// The story title; empty until a `StoryTitle` passage sets it.
    pub title: String,
    /// The story metadata, once a `StoryData` passage has been read.
    pub meta: Option<JsonMap>,
    pub passages: Vec<Passage>,
    pub warnings: Vec<Warning>,
}

impl View for TweeReader {
    type V = ReadState;

    open spec fn view(&self) -> ReadState {
        ReadState {
            title: self.title@,
            meta: match self.meta {
                Some(m) => Some(m@),
                None => None,
            },
            passages: passages_view(self.passages@),
            warnings: warnings_view(self.warnings@),
        }
    }
}

/// The mathematical form of what reading JSON gave.
pub open spec fn parsed_view(parsed: Option<JsonValue>) -> Option<Json> {
    match parsed {
        Some(v) => Some(v@),
        None => None,
    }
}

impl TweeReader {
    /// A reader that has read nothing.
    pub fn new() -> (r: TweeReader)
        ensures
            r@ == read_start(),
    {
        let r = TweeReader {
            title: String::new(),
            meta: None,
            passages: Vec::new(),
            warnings: Vec::new(),
        };
        assert(passages_view(r.passages@) =~= Seq::<PassageView>::empty());
        assert(warnings_view(r.warnings@) =~= Seq::<WarningView>::empty());
        r
    }

    fn warn(&mut self, w: Warning)
        ensures
            final(self)@ == (ReadState { warnings: old(self)@.warnings.push(w@), ..old(self)@ }),
    {
        let ghost before = self.warnings@;
        self.warnings.push(w);
        assert(warnings_view(self.warnings@) =~= warnings_view(before).push(w@));
    }

    fn has(&self, name: &String) -> (b: bool)
        ensures
            b == has_passage(self@.passages, name@),
    {
        let mut i: usize = 0;
        while i < self.passages.len()
            invariant
                i <= self.passages@.len(),
                forall|j: int| 0 <= j < i ==> (#[trigger] self@.passages[j]).name != name@,
            decreases self.passages@.len() - i,
        {
            if self.passages[i].name == *name {
                assert(self@.passages[i as int].name == name@);
                return true;
            }
            i += 1;
        }
        false
    }

    /// Takes in one passage: its header, its text with escapes resolved,
    /// and what reading its JSON gave (`None` where that failed).
    pub fn record(&mut self, header: Header, content: &str, parsed: Option<JsonValue>)
        ensures
            final(self)@ == record(old(self)@, header@, content@, parsed_view(parsed)),
    {
        let Header { name, tags, meta: _, unclosed } = header;
        if unclosed {
            self.warn(Warning::PassageTagsMalformed(name.clone()));
        }
        let name_chars = chars_of(name.as_str());
        if name_chars.len() == 0 {
            self.warn(Warning::PassageNameMissing);
        } else if same_text(name.as_str(), "StoryTitle") {
            if chars_of(self.title.as_str()).len() != 0 {
                self.warn(Warning::PassageDuplicated(name));
            }
            self.title = string_from_chars(&trimmed(&chars_of(content)));
        } else if same_text(name.as_str(), "StoryData") {
            if self.meta.is_some() {
                self.warn(Warning::PassageDuplicated(name));
            }
            match parsed {
                Some(JsonValue::Object(o)) => {
                    self.meta = Some(o);
                },
                _ => {
                    self.meta = Some(JsonMap::new());
                    self.warn(Warning::StoryMetadataMalformed);
                },
            }
        } else {
            let meta = match parsed {
                Some(JsonValue::Object(o)) => o,
                _ => {
                    self.warn(Warning::PassageMetadataMalformed(name.clone()));
                    JsonMap::new()
                },
            };
            if self.has(&name) {
                self.warn(Warning::PassageDuplicated(name));
            } else {
                let text = string_from_chars(&trimmed_end(&chars_of(content)));
                let p = Passage { name, tags, meta, content: text };
                let ghost before = self.passages@;
                self.passages.push(p);
                assert(passages_view(self.passages@) =~= passages_view(before).push(p@));
            }
        }
    }

    /// Ends the reading: the story, and the warnings in the order in which
    /// they arose.
    pub fn finish(self) -> (r: (Story, Vec<Warning>))
        ensures
            (r.0@, warnings_view(r.1@)) == finish(self@),
    {
        let TweeReader { title, meta, passages, warnings } = self;
        let mut warnings = warnings;
        if chars_of(title.as_str()).len() == 0 {
            let ghost before = warnings@;
            warnings.push(Warning::StoryTitleMissing);
            assert(warnings_view(warnings@) =~= warnings_view(before).push(
                WarningView::StoryTitleMissing,
            ));
        }
        let meta = match meta {
            Some(m) => m,
            None => JsonMap::new(),
        };
        (Story { title, passages, meta }, warnings)
    }
}

/// Parses Twee 3 into a [`Story`].  Never fails: what is wrong with the
/// text comes back as warnings.
pub fn parse_twee3(source: &str) -> (r: Result<(Story, Vec<Warning>), Error>)
    ensures
        r matches Ok(pair) && (pair.0@, warnings_view(pair.1@)) == read_twee(source@),
{
    let v = chars_of(source);
    let mut reader = TweeReader::new();
    let mut pos = find_header(&v, 0);
    proof {
        lemma_next_header(v@, 0);
    }
    if pos < v.len() {
        let ghost goal = read_from(v@, pos as int, read_start());
        loop
            invariant_except_break
                pos < v@.len(),
                is_header(v@, pos as int),
                goal == read_from(v@, pos as int, reader@),
            ensures
                reader@ == goal,
            decreases v@.len() - pos,
        {
            proof {
                lemma_line_end(v@, pos + 2);
            }
            let end = find_line_end(&v, pos + 2);
            let body = end + 1;
            let next = find_header(&v, body);
            let header = scan_header(&v, pos + 2);
            let content = string_from_chars(&unescape_content(&v, body, next));
            let parsed = if same_text(header.name.as_str(), "StoryData") {
                JsonValue::parse(content.as_str())
            } else {
                JsonValue::parse(header.meta.as_str())
            };
            reader.record(header, content.as_str(), parsed);
            if next < v.len() {
                proof {
                    lemma_next_header(v@, body as int);
                }
                pos = next;
            } else {
                break ;
            }
        }
    }
    Ok(reader.finish())
}

/// The characters that a header line gives a meaning to.
pub open spec fn is_special(c: char) -> bool {
    c == '\\' || c == '[' || c == ']' || c == '{' || c == '}'
}

/// A name or tag as a header line writes it: a backslash before each
/// backslash, bracket and brace.
pub open spec fn escape_text(s: Seq<char>) -> Seq<char>
    decreases s.len(),
{
    if s.len() == 0 {
        Seq::empty()
    } else if is_special(s.last()) {
        escape_text(s.drop_last()).push('\\').push(s.last())
    } else {
        escape_text(s.drop_last()).push(s.last())
    }
}

/// Whether `::` stands at `i` at the start of a line.
pub open spec fn starts_colons(s: Seq<char>, i: int) -> bool {
    &&& 0 <= i
    &&& i + 1 < s.len()
    &&& at_line_start(s, i)
    &&& s[i] == ':'
    &&& s[i + 1] == ':'
}

/// The first `n` characters of `s`, with a backslash before each `::` that
/// starts a line.
pub open spec fn escape_upto(s: Seq<char>, n: int) -> Seq<char>
    decreases n,
{
    if n <= 0 {
        Seq::empty()
    } else if starts_colons(s, n - 1) {
        escape_upto(s, n - 1).push('\\').push(s[n - 1])
    } else {
        escape_upto(s, n - 1).push(s[n - 1])
    }
}

/// Passage text as Twee writes it: every `::` at the start of a line reads
/// `\::`.
pub open spec fn escape_content(s: Seq<char>) -> Seq<char> {
    escape_upto(s, s.len() as int)
}

/// Tags as a header line writes them: each escaped, one space between two.
pub open spec fn tags_text(tags: Seq<Seq<char>>) -> Seq<char>
    decreases tags.len(),
{
    if tags.len() == 0 {
        Seq::empty()
    } else if tags.len() == 1 {
        escape_text(tags[0])
    } else {
        tags_text(tags.drop_last()) + seq![' '] + escape_text(tags.last())
    }
}

/// The two blocks that open every Twee text: the title, and the story
/// metadata as the JSON text `meta_text`.
pub open spec fn head_text(title: Seq<char>, meta_text: Seq<char>) -> Seq<char> {
    ":: StoryTitle\n"@ + escape_text(title) + "\n\n:: StoryData\n"@ + meta_text + "\n\n"@
}

/// The block of one passage, its metadata as the JSON text `meta_text`:
/// an empty line, the header with the tags in brackets where there are any
/// and the metadata where there is any, then the text and a line feed.
pub open spec fn passage_text(p: PassageView, meta_text: Seq<char>) -> Seq<char> {
    "\n:: "@ + escape_text(p.name) + (if p.tags.len() > 0 {
        " ["@ + tags_text(p.tags) + "]"@
    } else {
        Seq::empty()
    }) + (if p.meta.len() > 0 {
        " "@ + meta_text
    } else {
        Seq::empty()
    }) + "\n"@ + escape_content(p.content) + "\n"@
}

/// The blocks of `passages`, in order, each with its metadata on one line.
pub open spec fn passages_text(passages: Seq<PassageView>) -> Seq<char>
    decreases passages.len(),
{
    if passages.len() == 0 {
        Seq::empty()
    } else {
        passages_text(passages.drop_last()) + passage_text(
            passages.last(),
            compact_json(Json::Object(passages.last().meta)),
        )
    }
}

/// A story as Twee text: the title block, the metadata block with indented
/// JSON, then every passage in order.
pub open spec fn write_twee(story: StoryView) -> Seq<char> {
    head_text(story.title, pretty_json(Json::Object(story.meta))) + passages_text(story.passages)
}

/// Appends `s` to `out` as a header line writes a name or a tag.
pub fn push_escaped(out: &mut Vec<char>, s: &str)
    ensures
        final(out)@ == old(out)@ + escape_text(s@),
{
    let v = chars_of(s);
    let mut i: usize = 0;
    assert(escape_text(v@.take(0)) =~= Seq::<char>::empty());
    while i < v.len()
        invariant
            i <= v@.len(),
            out@ == old(out)@ + escape_text(v@.take(i as int)),
        decreases v@.len() - i,
    {
        let c = v[i];
        assert(v@.take(i + 1).drop_last() =~= v@.take(i as int));
        let ghost before = escape_text(v@.take(i as int));
        if c == '\\' || c == '[' || c == ']' || c == '{' || c == '}' {
            out.push('\\');
            out.push(c);
            assert(out@ =~= old(out)@ + before.push('\\').push(c));
        } else {
            out.push(c);
            assert(out@ =~= old(out)@ + before.push(c));
        }
        i += 1;
    }
    assert(v@.take(i as int) =~= v@);
}

/// Appends passage text to `out` as Twee writes it.
pub fn push_content(out: &mut Vec<char>, s: &str)
    ensures
        final(out)@ == old(out)@ + escape_content(s@),
{
    let v = chars_of(s);
    let mut i: usize = 0;
    while i < v.len()
        invariant
            i <= v@.len(),
            out@ == old(out)@ + escape_upto(v@, i as int),
        decreases v@.len() - i,
    {
        let c = v[i];
        let ghost before = escape_upto(v@, i as int);
        let starts = i == 0 || v[i - 1] == '\n';
        if starts && v.len() - i > 1 && c == ':' && v[i + 1] == ':' {
            assert(starts_colons(v@, i as int));
            out.push('\\');
            out.push(c);
            assert(out@ =~= old(out)@ + before.push('\\').push(c));
        } else {
            assert(!starts_colons(v@, i as int));
            out.push(c);
            assert(out@ =~= old(out)@ + before.push(c));
        }
        i += 1;
    }
}

/// Appends the tags to `out` as a header line writes them.
pub fn push_tags(out: &mut Vec<char>, tags: &Vec<String>)
    ensures
        final(out)@ == old(out)@ + tags_text(strings_view(tags@)),
{
    let ghost all = strings_view(tags@);
    let mut i: usize = 0;
    assert(out@ =~= old(out)@ + tags_text(all.take(0)));
    while i < tags.len()
        invariant
            i <= tags@.len(),
            all == strings_view(tags@),
            out@ == old(out)@ + tags_text(all.take(i as int)),
        decreases tags@.len() - i,
    {
        assert(all.take(i + 1).drop_last() =~= all.take(i as int));
        let ghost before = tags_text(all.take(i as int));
        if i > 0 {
            out.push(' ');
        }
        push_escaped(out, tags[i].as_str());
        proof {
            if i > 0 {
                assert(out@ =~= old(out)@ + (before + seq![' '] + escape_text(all[i as int])));
            } else {
                assert(all.take(1)[0] == all[0]);
                assert(out@ =~= old(out)@ + escape_text(all[0]));
            }
        }
        i += 1;
    }
    assert(all.take(i as int) =~= all);
}

/// The two blocks that open every Twee text, with `meta_text` for the
/// story metadata.
pub fn write_head(title: &str, meta_text: &str) -> (out: Vec<char>)
    ensures
        out@ == head_text(title@, meta_text@),
{
    let mut out: Vec<char> = Vec::new();
    push_text(&mut out, ":: StoryTitle\n");
    push_escaped(&mut out, title);
    push_text(&mut out, "\n\n:: StoryData\n");
    push_text(&mut out, meta_text);
    push_text(&mut out, "\n\n");
    assert(out@ =~= head_text(title@, meta_text@));
    out
}

/// Appends the block of one passage to `out`, with `meta_text` for its
/// metadata.
pub fn write_passage(out: &mut Vec<char>, p: &Passage, meta_text: &str)
    ensures
        final(out)@ == old(out)@ + passage_text(p@, meta_text@),
{
    push_text(out, "\n:: ");
    push_escaped(out, p.name.as_str());
    let ghost tags = if p@.tags.len() > 0 {
        " ["@ + tags_text(p@.tags) + "]"@
    } else {
        Seq::empty()
    };
    if p.tags.len() > 0 {
        push_text(out, " [");
        push_tags(out, &p.tags);
        push_text(out, "]");
    }
    assert(out@ =~= old(out)@ + "\n:: "@ + escape_text(p@.name) + tags);
    let ghost meta = if p@.meta.len() > 0 {
        " "@ + meta_text@
    } else {
        Seq::empty()
    };
    if !p.meta.is_empty() {
        push_text(out, " ");
        push_text(out, meta_text);
    }
    assert(out@ =~= old(out)@ + "\n:: "@ + escape_text(p@.name) + tags + meta);
    push_text(out, "\n");
    push_content(out, p.content.as_str());
    push_text(out, "\n");
    assert(out@ =~= old(out)@ + passage_text(p@, meta_text@));
}

/// Serializes a [`Story`] into Twee 3.
pub fn serialize_twee3(story: &Story) -> (r: String)
    ensures
        r@ == write_twee(story@),
{
    let story_meta = JsonValue::Object(story.meta.clone()).to_text_pretty();
    let mut out = write_head(story.title.as_str(), story_meta.as_str());
    let ghost head = out@;
    let ghost all = passages_view(story.passages@);
    let mut i: usize = 0;
    assert(out@ =~= head + passages_text(all.take(0)));
    while i < story.passages.len()
        invariant
            i <= story.passages@.len(),
            all == passages_view(story.passages@),
            out@ == head + passages_text(all.take(i as int)),
        decreases story.passages@.len() - i,
    {
        assert(all.take(i + 1).drop_last() =~= all.take(i as int));
        let p = &story.passages[i];
        let meta = JsonValue::Object(p.meta.clone()).to_text();
        write_passage(&mut out, p, meta.as_str());
        assert(out@ =~= head + passages_text(all.take(i + 1)));
        i += 1;
    }
    assert(all.take(i as int) =~= all);
    string_from_chars(&out)
}

} // verus!
