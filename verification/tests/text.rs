use glib::text::{chars_of, has_prefix, is_whitespace_char, remove_spaces, text_of, trimmed};

fn trim(text: &str) -> String {
    text_of(&trimmed(&chars_of(text)))
}

#[test]
fn whitespace_is_what_the_standard_library_calls_whitespace() {
    for code in 0u32..=0x10FFFF {
        if let Some(c) = char::from_u32(code) {
            assert_eq!(is_whitespace_char(c), c.is_whitespace(), "char U+{:04X}", code);
        }
    }
}

#[test]
fn characters_and_text_convert_both_ways() {
    assert_eq!(chars_of("aé\n"), vec!['a', 'é', '\n']);
    assert_eq!(chars_of(""), Vec::<char>::new());
    assert_eq!(text_of(&vec!['a', 'é', '\n']), "aé\n");
    assert_eq!(text_of(&vec![]), "");
}

#[test]
fn trimming_removes_whitespace_at_both_ends_only() {
    assert_eq!(trim("  a b  "), "a b");
    assert_eq!(trim("\n\t a\r\n"), "a");
    assert_eq!(trim("a"), "a");
    assert_eq!(trim(""), "");
    assert_eq!(trim(" \u{3000}\u{a0} "), "");
    assert_eq!(trim("\u{2003}x\u{2028}y\u{85}"), "x\u{2028}y");
    assert_eq!(trim("\u{200b}x"), "\u{200b}x");
}

#[test]
fn trimming_agrees_with_the_standard_library() {
    for text in ["", " ", "a", " a", "a ", " a ", "\r\n a \n b \t", "\u{1680}a\u{205f}"] {
        assert_eq!(trim(text), text.trim(), "text {:?}", text);
    }
}

#[test]
fn trimming_twice_is_trimming_once() {
    for text in ["  a b  ", "\n", "x", " \t x \t y \n "] {
        assert_eq!(trim(&trim(text)), trim(text));
    }
}

#[test]
fn prefix_is_tested_on_whole_characters() {
    assert!(has_prefix("attributes/common", "attributes/"));
    assert!(has_prefix("attributes/", "attributes/"));
    assert!(has_prefix("anything", ""));
    assert!(has_prefix("", ""));
    assert!(!has_prefix("attributes", "attributes/"));
    assert!(!has_prefix("xattributes/a", "attributes/"));
    assert!(!has_prefix("", "a"));
    assert!(!has_prefix("Attributes/a", "attributes/"));
    assert!(has_prefix("éa", "é"));
    assert!(!has_prefix("éa", "e"));
}

#[test]
fn only_spaces_are_removed_from_a_version() {
    assert_eq!(remove_spaces("330 core"), "330core");
    assert_eq!(remove_spaces(" 3 3 0 "), "330");
    assert_eq!(remove_spaces("330"), "330");
    assert_eq!(remove_spaces(""), "");
    assert_eq!(remove_spaces("3\t3\n0\u{a0}"), "3\t3\n0\u{a0}");
    assert_eq!(remove_spaces("330 core"), "330 core".replace(" ", ""));
}
