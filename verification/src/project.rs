//! The few decisions of a tool that builds stories from files: how an
//! untitled story is called, and when a change calls for a rebuild.

use vstd::prelude::*;
use crate::text::{chars_of, decimal, decimal_chars, push_chars, push_text, string_from_chars};

verus! {

/// What happened to a watched file.
#[derive(Debug, Clone, Copy, PartialEq, Eq, Structural)]
pub enum Change {
    Modified,
    Removed,
    Other,
}

/// Whether a change calls for a rebuild: a file was modified or removed,
/// and the change is not to the output of the build itself.
pub fn rebuild_on(change: Change, touches_output: bool) -> (r: bool)
    ensures
        r == (!touches_output && change != Change::Other),
{
    if touches_output {
        false
    } else {
        match change {
            Change::Modified => true,
            Change::Removed => true,
            Change::Other => false,
        }
    }
}

/// The title to build a story under: its own, or `Story` where it has
/// none.
pub open spec fn title_or_default(title: Seq<char>) -> Seq<char> {
    if title.len() == 0 {
        "Story"@
    } else {
        title
    }
}

/// The title to build a story under.
pub fn build_title(title: &str) -> (r: String)
    ensures
        r@ == title_or_default(title@),
{
    if chars_of(title).len() == 0 {
        "Story".to_owned()
    } else {
        title.to_owned()
    }
}

/// The name of the file for a story of an archive: its title, or `story-`
/// and the number `untitled` where it has none.
pub open spec fn archive_stem(title: Seq<char>, untitled: nat) -> Seq<char> {
    if title.len() == 0 {
        "story-"@ + decimal(untitled)
    } else {
        title
    }
}

/// The name of the file for a story of an archive, without its extension.
pub fn archive_file_stem(title: &str, untitled: u64) -> (r: String)
    ensures
        r@ == archive_stem(title@, untitled as nat),
{
    if chars_of(title).len() == 0 {
        let mut out: Vec<char> = Vec::new();
        push_text(&mut out, "story-");
        push_chars(&mut out, &decimal_chars(untitled));
        assert(out@ =~= "story-"@ + decimal(untitled as nat));
        string_from_chars(&out)
    } else {
        title.to_owned()
    }
}

} // verus!
