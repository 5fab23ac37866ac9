use lockbook::text::{chars_of, is_white_space, same_text, string_of, trim_bounds, trim_str};

#[test]
fn white_space_is_what_unicode_says() {
    for u in 0..=0x10ffffu32 {
        if let Some(c) = char::from_u32(u) {
            assert_eq!(is_white_space(c), c.is_whitespace(), "U+{:04X}", u);
        }
    }
}

#[test]
fn trimming_takes_white_space_off_both_ends() {
    for s in [
        "",
        " ",
        "a",
        " a ",
        "\t\n a b \u{3000}\u{a0}",
        "\u{200b}x\u{200b}",
        "\u{2028}é ü\r\n",
        "no edges",
    ] {
        assert_eq!(trim_str(s), s.trim());
    }
}

#[test]
fn trim_bounds_look_at_their_range_only() {
    let chars = chars_of("ab  c  de");
    assert_eq!(trim_bounds(&chars, 2, 7), (4, 5));
    let (a, b) = trim_bounds(&chars, 2, 4);
    assert_eq!(a, b);
    assert_eq!(trim_bounds(&chars, 0, 9), (0, 9));
}

#[test]
fn characters_make_strings_again() {
    let chars = chars_of("añ🦀b");
    assert_eq!(chars, vec!['a', 'ñ', '🦀', 'b']);
    assert_eq!(string_of(&chars, 1, 3), "ñ🦀");
    assert_eq!(string_of(&chars, 2, 2), "");
}

#[test]
fn texts_are_the_same_character_by_character() {
    assert!(same_text("", ""));
    assert!(same_text("é", "é"));
    assert!(!same_text("y", "Y"));
    assert!(!same_text("y", "yy"));
    assert!(!same_text("yy", "y"));
}
