//! Reading and writing Twine stories.
//!
//! A [`Story`] is a title, an ordered list of [`Passage`]s and story-level
//! metadata.  It can be read from and written to Twee 3 text, and read from
//! and written to the `tw-storydata` markup that Twine publishes.

pub mod assoc;
pub mod format;
pub mod html;
pub mod json;
pub mod keeps;
pub mod markup_laws;
pub mod project;
pub mod story;
pub mod text;
pub mod twee3;
pub mod twee_laws;
pub mod xml;

pub use format::{gen_ifid, ifid_from_bytes, FormatSources, StoryFormat, UnknownStoryFormat};
pub use html::{parse_archive, parse_element, parse_html, serialize_html};
pub use json::{JsonMap, JsonValue};
pub use keeps::twee_keeps;
pub use story::{Error, Passage, Story, Warning};
pub use twee3::{parse_twee3, serialize_twee3};
pub use xml::{MarkupElement, MarkupNode};
