use twee_parser::text::{
    blank, chars_of, decimal_chars, is_whitespace, push_chars, push_text, read_u32, same_text,
    slice_chars, split_words, trim_end_bound, trim_start_bound, trimmed, trimmed_end,
};

fn chars(s: &str) -> Vec<char> {
    s.chars().collect()
}

fn text(v: &[char]) -> String {
    v.iter().collect()
}

#[test]
fn white_space_is_what_std_says() {
    let mut n: u32 = 0;
    while n <= 0x10FFFF {
        if let Some(c) = char::from_u32(n) {
            assert_eq!(is_whitespace(c), c.is_whitespace(), "U+{:04X}", n);
        }
        n += 1;
    }
}

#[test]
fn trimming_is_what_std_does() {
    for s in ["", " ", "a", "  a b \t\n", "\u{2003}x\u{3000}", "x\u{85}", "\r\n", " \u{a0} "] {
        assert_eq!(text(&trimmed(&chars(s))), s.trim(), "{:?}", s);
        assert_eq!(text(&trimmed_end(&chars(s))), s.trim_end(), "{:?}", s);
        assert_eq!(blank(&chars(s)), s.trim().is_empty(), "{:?}", s);
    }
    let v = chars("  ab  ");
    assert_eq!(trim_end_bound(&v, 0, 6), 4);
    assert_eq!(trim_end_bound(&v, 0, 2), 0);
    assert_eq!(trim_end_bound(&v, 3, 3), 3);
    assert_eq!(trim_start_bound(&v, 0, 6), 2);
    assert_eq!(trim_start_bound(&v, 4, 6), 6);
}

#[test]
fn words_are_what_std_splits() {
    for s in ["", "  ", "a", " a  b\tc\n", "tag1 tag2", "x\u{2003}y", "a b "] {
        let expected: Vec<String> = s.split_whitespace().map(|w| w.to_string()).collect();
        assert_eq!(split_words(&chars(s)), expected, "{:?}", s);
    }
}

#[test]
fn numbers_are_read_as_std_reads_them() {
    for s in [
        "", "+", "-", "0", "7", "+7", "-7", "-0", "007", "4294967295", "4294967296", "+4294967295",
        "99999999999999999999", "1 ", " 1", "1_0", "１", "12a", "++1", "1+", "٣", "0x10",
    ] {
        assert_eq!(read_u32(&chars(s)), u32::from_str_radix(s, 10).ok(), "{:?}", s);
    }
    assert_eq!(read_u32(&chars("42")), Some(42));
    assert_eq!(read_u32(&chars("4294967296")), None);
}

#[test]
fn decimal_digits() {
    for n in [0u64, 1, 9, 10, 11, 99, 100, 12345, 4294967295, u64::MAX] {
        assert_eq!(text(&decimal_chars(n)), n.to_string());
    }
}

#[test]
fn moving_characters() {
    assert_eq!(chars_of("héllo ✓"), chars("héllo ✓"));
    assert_eq!(chars_of(""), chars(""));
    assert_eq!(slice_chars(&chars("abcdef"), 2, 4), chars("cd"));
    assert_eq!(slice_chars(&chars("abc"), 3, 3), chars(""));
    let mut out = chars("ab");
    push_chars(&mut out, &chars("cd"));
    push_text(&mut out, "é!");
    assert_eq!(text(&out), "abcdé!");
    assert!(same_text("a", "a"));
    assert!(!same_text("a", "ab"));
    assert!(!same_text("StoryTitle", "Storytitle"));
}
