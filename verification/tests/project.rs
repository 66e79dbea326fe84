use twee_parser::project::{archive_file_stem, build_title, rebuild_on, Change};
use twee_parser::Warning;

#[test]
fn rebuild_only_on_changes_to_sources() {
    assert!(rebuild_on(Change::Modified, false));
    assert!(rebuild_on(Change::Removed, false));
    assert!(!rebuild_on(Change::Other, false));
    assert!(!rebuild_on(Change::Modified, true));
    assert!(!rebuild_on(Change::Removed, true));
    assert!(!rebuild_on(Change::Other, true));
}

#[test]
fn titles_and_file_names() {
    assert_eq!(build_title(""), "Story");
    assert_eq!(build_title("Mine"), "Mine");
    assert_eq!(archive_file_stem("Mine", 3), "Mine");
    assert_eq!(archive_file_stem("", 1), "story-1");
    assert_eq!(archive_file_stem("", 12), "story-12");
}

#[test]
fn warning_messages() {
    assert_eq!(
        Warning::StoryMetadataMalformed.message(),
        "Story metadata is not valid JSON and has been discarded."
    );
    assert_eq!(Warning::StoryTitleMissing.message(), "Story title is missing.");
    assert_eq!(
        Warning::PassageMetadataMalformed("A b".to_string()).message(),
        "Passage \"A b\" metadata is not valid JSON and has been discarded."
    );
    assert_eq!(
        Warning::PassageTagsMalformed("A".to_string()).message(),
        "Passage \"A\" tags are not closed; the tags that were read have been kept."
    );
    assert_eq!(
        Warning::PassageDuplicated("A".to_string()).message(),
        "Passage \"A\" is duplicated, using the first occurrence."
    );
    assert_eq!(
        Warning::PassageNameMissing.message(),
        "Passage name is missing, passage has been discarded."
    );
}
