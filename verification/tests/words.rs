//! Text and numbers.
use vision_core::text::{is_blank, join, same_text, split_lines, to_decimal, trim};

#[test]
fn white_space_is_that_of_unicode() {
    for v in 0..=0x10_ffffu32 {
        if let Some(c) = char::from_u32(v) {
            assert_eq!(is_blank(c), c.is_whitespace(), "{v:x}");
        }
    }
}

#[test]
fn trimming_agrees_with_the_standard_library() {
    let cases = [
        "",
        " ",
        "a",
        "  a b  ",
        "\t\n\u{a0}x\u{2003}",
        "\u{3000}",
        "no",
        " é ",
        "\u{200b}x\u{200b}",
    ];
    for s in cases {
        assert_eq!(trim(s), s.trim());
    }
}

#[test]
fn lines_agree_with_the_standard_library() {
    let cases = [
        "", "\n", "a", "a\n", "a\nb", "a\r\nb\r\n", "a\r", "\r\n", "a\r\r\nb", "\n\n", "a\n\nb\n",
        "é\nü", "\r", "a\rb\n",
    ];
    for s in cases {
        let expected: Vec<String> = s.lines().map(|l| l.to_string()).collect();
        assert_eq!(split_lines(s), expected, "{s:?}");
    }
}

#[test]
fn tokens_written_to_lines_read_back() {
    let tokens: Vec<String> = ["a", "", " x", "ß", "#"].iter().map(|s| s.to_string()).collect();
    let mut file = String::new();
    for t in &tokens {
        file.push_str(t);
        file.push('\n');
    }
    assert_eq!(split_lines(&file), tokens);
}

#[test]
fn parts_are_joined_with_gaps() {
    let parts: Vec<String> = ["a", "b", "c"].iter().map(|s| s.to_string()).collect();
    assert_eq!(join(&parts, ", "), "a, b, c");
    assert_eq!(join(&Vec::new(), ", "), "");
    assert_eq!(join(&vec!["x".to_string()], ", "), "x");
}

#[test]
fn numbers_in_decimal() {
    for n in [0u64, 7, 10, 99, 100, 12345, u64::MAX] {
        assert_eq!(to_decimal(n), n.to_string());
    }
}

#[test]
fn texts_are_compared_whole() {
    assert!(same_text("screen", "screen"));
    assert!(!same_text("screen", "Screen"));
    assert!(!same_text("screen", "screens"));
    assert!(same_text("", ""));
}
