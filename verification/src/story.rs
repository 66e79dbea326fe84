//! The document model: a story, its passages, and what parsing reports.

use vstd::prelude::*;
use crate::json::{Json, JsonMap};
use crate::text::{push_text, string_from_chars, strings_view};

verus! {

/// An in-memory representation of a Twine story.
#[derive(Debug, Clone)]
pub struct Story {
    /// The name of the story.
    pub title: String,
    /// The passages, in authoring order.
    pub passages: Vec<Passage>,
    /// The story metadata.  Markup holds only the entries whose values are
    /// strings, and the tag colours under `tag-colors`.
    pub meta: JsonMap,
}

/// A passage of a [`Story`].
#[derive(Debug, Clone)]
pub struct Passage {
    /// The name of the passage.
    pub name: String,
    /// The passage tags.  A tag holds no white space.
    pub tags: Vec<String>,
    /// The passage metadata.
    pub meta: JsonMap,
    /// The text of the passage.
    pub content: String,
}

/// Why a document could not be read at all.
#[derive(Debug)]
pub enum Error {
    /// The markup is not well-formed.
    HTMLParseError(xmltree::ParseError),
    /// The markup holds no `tw-storydata` element.
    HTMLStoryDataNotFound,
}

/// What a parser found wrong and put right.  Parsing goes on after each of
/// these.
#[derive(Debug, Clone)]
pub enum Warning {
    /// The story metadata was not a JSON object.
    StoryMetadataMalformed,
    /// The story has no title.
    StoryTitleMissing,
    /// The metadata of the named passage was not a JSON object.
    PassageMetadataMalformed(String),
    /// The tags of the named passage were not closed.
    PassageTagsMalformed(String),
    /// A second passage of this name was found.
    PassageDuplicated(String),
    /// A passage has no name.
    PassageNameMissing,
}

/// The mathematical form of a [`Passage`].
pub struct PassageView {
    pub name: Seq<char>,
    pub tags: Seq<Seq<char>>,
    pub meta: Seq<(Seq<char>, Json)>,
    pub content: Seq<char>,
}

/// The mathematical form of a [`Story`].
pub struct StoryView {
    pub title: Seq<char>,
    pub passages: Seq<PassageView>,
    pub meta: Seq<(Seq<char>, Json)>,
}

/// The mathematical form of a [`Warning`].
pub enum WarningView {
    StoryMetadataMalformed,
    StoryTitleMissing,
    PassageMetadataMalformed(Seq<char>),
    PassageTagsMalformed(Seq<char>),
    PassageDuplicated(Seq<char>),
    PassageNameMissing,
}

impl View for Passage {
    type V = PassageView;

    open spec fn view(&self) -> PassageView {
        PassageView {
            name: self.name@,
            tags: strings_view(self.tags@),
            meta: self.meta@,
            content: self.content@,
        }
    }
}

/// The mathematical form of a list of passages.
pub open spec fn passages_view(v: Seq<Passage>) -> Seq<PassageView> {
    Seq::new(v.len(), |i: int| v[i]@)
}

impl View for Story {
    type V = StoryView;

    open spec fn view(&self) -> StoryView {
        StoryView { title: self.title@, passages: passages_view(self.passages@), meta: self.meta@ }
    }
}

impl View for Warning {
    type V = WarningView;

    open spec fn view(&self) -> WarningView {
        match self {
            Warning::StoryMetadataMalformed => WarningView::StoryMetadataMalformed,
            Warning::StoryTitleMissing => WarningView::StoryTitleMissing,
            Warning::PassageMetadataMalformed(n) => WarningView::PassageMetadataMalformed(n@),
            Warning::PassageTagsMalformed(n) => WarningView::PassageTagsMalformed(n@),
            Warning::PassageDuplicated(n) => WarningView::PassageDuplicated(n@),
            Warning::PassageNameMissing => WarningView::PassageNameMissing,
        }
    }
}

/// The mathematical form of a list of warnings.
pub open spec fn warnings_view(v: Seq<Warning>) -> Seq<WarningView> {
    Seq::new(v.len(), |i: int| v[i]@)
}

/// What a warning says to the author of the story.
pub open spec fn message_text(w: WarningView) -> Seq<char> {
    match w {
        WarningView::StoryMetadataMalformed => "Story metadata is not valid JSON and has been discarded."@,
        WarningView::StoryTitleMissing => "Story title is missing."@,
        WarningView::PassageMetadataMalformed(n) => "Passage \""@ + n
            + "\" metadata is not valid JSON and has been discarded."@,
        WarningView::PassageTagsMalformed(n) => "Passage \""@ + n
            + "\" tags are not closed; the tags that were read have been kept."@,
        WarningView::PassageDuplicated(n) => "Passage \""@ + n
            + "\" is duplicated, using the first occurrence."@,
        WarningView::PassageNameMissing => "Passage name is missing, passage has been discarded."@,
    }
}

impl Warning {
    /// What the warning says to the author of the story.
    pub fn message(&self) -> (r: String)
        ensures
            r@ == message_text(self@),
    {
        let mut out: Vec<char> = Vec::new();
        match self {
            Warning::StoryMetadataMalformed => {
                push_text(&mut out, "Story metadata is not valid JSON and has been discarded.");
            },
            Warning::StoryTitleMissing => {
                push_text(&mut out, "Story title is missing.");
            },
            Warning::PassageMetadataMalformed(n) => {
                push_text(&mut out, "Passage \"");
                push_text(&mut out, n.as_str());
                push_text(&mut out, "\" metadata is not valid JSON and has been discarded.");
            },
            Warning::PassageTagsMalformed(n) => {
                push_text(&mut out, "Passage \"");
                push_text(&mut out, n.as_str());
                push_text(
                    &mut out,
                    "\" tags are not closed; the tags that were read have been kept.",
                );
            },
            Warning::PassageDuplicated(n) => {
                push_text(&mut out, "Passage \"");
                push_text(&mut out, n.as_str());
                push_text(&mut out, "\" is duplicated, using the first occurrence.");
            },
            Warning::PassageNameMissing => {
                push_text(&mut out, "Passage name is missing, passage has been discarded.");
            },
        }
        assert(out@ =~= message_text(self@));
        string_from_chars(&out)
    }
}

} // verus!
