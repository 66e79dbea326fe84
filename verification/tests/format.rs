use twee_parser::{gen_ifid, ifid_from_bytes, FormatSources, StoryFormat};

const ALL: [StoryFormat; 4] =
    [StoryFormat::Harlowe, StoryFormat::Chapbook, StoryFormat::Snowman, StoryFormat::Sugarcube];

#[test]
fn names_and_versions() {
    let names: Vec<String> = ALL.iter().map(|f| f.format_name()).collect();
    assert_eq!(names, vec!["Harlowe", "Chapbook", "Snowman", "SugarCube"]);
    let versions: Vec<String> = ALL.iter().map(|f| f.format_version()).collect();
    assert_eq!(versions, vec!["3.3.8", "1.2.3", "2.0.2", "2.36.1"]);
}

#[test]
fn every_format_is_found_by_its_name() {
    for f in ALL {
        assert_eq!(StoryFormat::from_name(&f.format_name()).unwrap(), f);
    }
}

#[test]
fn unknown_names() {
    for name in ["", "harlowe", "Sugarcube", "SugarCube ", "Twine"] {
        assert_eq!(StoryFormat::from_name(name).unwrap_err().0, name);
    }
}

#[test]
fn contents_come_from_the_sources() {
    let sources = FormatSources {
        harlowe: "h".to_string(),
        chapbook: "c".to_string(),
        snowman: "s".to_string(),
        sugarcube: "u".to_string(),
    };
    let contents: Vec<String> = ALL.iter().map(|f| f.format_contents(&sources)).collect();
    assert_eq!(contents, vec!["h", "c", "s", "u"]);
}

#[test]
fn ifid_of_given_bytes() {
    let bytes: [u8; 16] =
        [0x00, 0x01, 0x0A, 0x10, 0xFF, 0x9C, 0x0F, 0xAB, 0x7E, 0x00, 0x12, 0x34, 0x56, 0x78, 0x9A, 0xB0];
    assert_eq!(ifid_from_bytes(&bytes), "01A10-FF9C-FAB-7E0-123456789AB0");
    let expected: String = [&bytes[0..4], &bytes[4..6], &bytes[6..8], &bytes[8..10], &bytes[10..16]]
        .iter()
        .map(|g| g.iter().map(|b| format!("{:X}", b)).collect::<String>())
        .collect::<Vec<String>>()
        .join("-");
    assert_eq!(ifid_from_bytes(&bytes), expected);
    assert_eq!(ifid_from_bytes(&[0xAB; 16]), "ABABABAB-ABAB-ABAB-ABAB-ABABABABABAB");
}

#[test]
fn fresh_ifid() {
    let a = gen_ifid().unwrap();
    let b = gen_ifid().unwrap();
    assert_eq!(a.matches('-').count(), 4);
    assert!(a.chars().all(|c| c == '-' || c.is_ascii_digit() || ('A'..='F').contains(&c)));
    assert_ne!(a, b);
}
