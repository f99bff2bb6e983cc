use turbo_rag::text::{
    chars_of, join2, join3, is_white, parse_unsigned, print_unsigned, same, starts_with,
    text_between, trim,
};

#[test]
fn trimming_agrees_with_the_standard_library() {
    let texts = [
        "",
        "   ",
        "a",
        "  a b  ",
        "\t\n\u{b}\u{c}\r x \u{85}\u{a0}\u{1680}",
        "\u{2000}\u{200a}é\u{2028}\u{2029}\u{202f}\u{205f}\u{3000}",
        "\u{200b}zero width is not white\u{200b}",
        "  document number 3  ",
    ];
    for text in texts {
        assert_eq!(trim(text), text.trim(), "{text:?}");
        assert_eq!(trim(&trim(text)), text.trim());
    }
}

#[test]
fn white_space_agrees_with_the_standard_library() {
    for n in 0..=0x10ffffu32 {
        if let Some(c) = char::from_u32(n) {
            assert_eq!(is_white(c), c.is_whitespace(), "{n:x}");
        }
    }
}

#[test]
fn numbers_print_and_parse_back() {
    for n in [0u64, 7, 9, 10, 42, 99, 100, 4983, u64::MAX - 1, u64::MAX] {
        assert_eq!(print_unsigned(n), n.to_string());
        assert_eq!(parse_unsigned(&print_unsigned(n), u64::MAX), Some(n));
    }
}

#[test]
fn parsing_agrees_with_the_standard_library() {
    let texts = [
        "", "+", "-", "+5", "++5", "-5", "007", " 7", "7 ", "1a", "18446744073709551615",
        "18446744073709551616", "99999999999999999999999", "٣", "0", "+0", "65535", "65536",
    ];
    for text in texts {
        assert_eq!(parse_unsigned(text, u64::MAX), text.parse::<u64>().ok(), "{text:?}");
        assert_eq!(
            parse_unsigned(text, u16::MAX as u64).map(|n| n as u16),
            text.parse::<u16>().ok(),
            "{text:?}"
        );
    }
    assert_eq!(parse_unsigned("5", 4), None);
    assert_eq!(parse_unsigned("4", 4), Some(4));
}

#[test]
fn joining_and_comparing() {
    assert_eq!(join2("ab", "é"), "abé");
    assert_eq!(join3("a", "", "c"), "ac");
    assert!(same("é", "é"));
    assert!(!same("a", "b"));
    assert!(starts_with("turbo/a", "turbo/"));
    assert!(starts_with("turbo/a", ""));
    assert!(!starts_with("tur", "turbo"));
    assert!(!starts_with("lance/c", "turbo/"));
    assert_eq!(chars_of("aé"), vec!['a', 'é']);
    assert_eq!(text_between(&vec!['a', 'é', 'c'], 1, 3), "éc");
}
