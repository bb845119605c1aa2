use gospel_render::text::{
    chars_of, class_contains, find_in, rfind_in, skip_leading, skip_trailing, string_of_range,
    trim_range, CharClass,
};

#[test]
fn white_space_is_the_unicode_property() {
    for c in (0u32..=0x10FFFF).filter_map(char::from_u32) {
        assert_eq!(class_contains(CharClass::WhiteSpace, c), c.is_whitespace(), "{:?}", c);
    }
}

#[test]
fn digit_classes() {
    for c in (0u32..0x3000).filter_map(char::from_u32) {
        assert_eq!(class_contains(CharClass::AsciiDigit, c), c.is_ascii_digit());
        assert_eq!(class_contains(CharClass::DigitOrComma, c), c.is_ascii_digit() || c == ',');
        assert_eq!(class_contains(CharClass::Exactly('#'), c), c == '#');
    }
}

#[test]
fn trimming_agrees_with_str() {
    for s in ["", "  ", " a ", "\u{3000}名\u{3000}", "\t\na b\r\n", "x", "\u{85}y\u{a0}", "##a#"] {
        let cs = chars_of(s);
        let (a, b) = trim_range(&cs, 0, cs.len());
        assert_eq!(string_of_range(&cs, a, b), s.trim());
        let lo = skip_leading(&cs, 0, cs.len(), CharClass::Exactly('#'));
        assert_eq!(string_of_range(&cs, lo, cs.len()), s.trim_start_matches('#'));
        let hi = skip_trailing(&cs, 0, cs.len(), CharClass::Exactly('#'));
        assert_eq!(string_of_range(&cs, 0, hi), s.trim_end_matches('#'));
    }
}

#[test]
fn searching_by_character_position() {
    let cs = chars_of("甲(乙)(丙");
    assert_eq!(find_in(&cs, 0, cs.len(), '('), Some(1));
    assert_eq!(rfind_in(&cs, 0, cs.len(), '('), Some(4));
    assert_eq!(find_in(&cs, 2, cs.len(), '('), Some(4));
    assert_eq!(rfind_in(&cs, 0, 3, '('), Some(1));
    assert_eq!(find_in(&cs, 0, cs.len(), '：'), None);
    assert_eq!(rfind_in(&cs, 0, 0, '('), None);
}
