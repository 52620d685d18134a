use qomicex_updater::text::{
    chars_of, contains, decimal_text, is_whitespace, parse_u32, same, signed_decimal_text,
    starts_with, substring, trim, trim_end, trim_start,
};

#[test]
fn white_space_is_that_of_unicode() {
    for code in 0..=0x10ffffu32 {
        if let Some(c) = char::from_u32(code) {
            assert_eq!(is_whitespace(c), c.is_whitespace(), "U+{:04X}", code);
        }
    }
}

#[test]
fn trims_like_a_string() {
    let samples = [
        "",
        " ",
        "a",
        "  a ",
        "\u{3000}a b\u{85}\n",
        "\t\r\nab",
        "ab\u{200b}",
        "\u{2028}x\u{2029}",
        " \n ",
    ];
    for s in samples {
        assert_eq!(trim(s), s.trim());
        assert_eq!(trim_start(s), s.trim_start());
        assert_eq!(trim_end(s), s.trim_end());
    }
}

#[test]
fn compares_and_searches() {
    assert!(same("dir", "dir"));
    assert!(!same("dir", "dirs"));
    assert!(!same("dir", "Dir"));
    assert!(starts_with("untrusted comment: x", "untrusted comment"));
    assert!(starts_with("abc", ""));
    assert!(!starts_with("ab", "abc"));
    assert!(contains("INFO: No tasks", "INFO:"));
    assert!(contains("aaab", "aab"));
    assert!(contains("x", ""));
    assert!(contains("", ""));
    assert!(!contains("", "a"));
    assert!(!contains("INF O:", "INFO:"));
}

#[test]
fn cuts_and_joins_by_characters() {
    assert_eq!(qomicex_updater::text::concat("更", "新"), "更新");
    assert_eq!(qomicex_updater::text::concat("", ""), "");
    assert_eq!(substring("更新包.zip", 2, 4), "包.");
    assert_eq!(chars_of("aé"), vec!['a', 'é']);
}

#[test]
fn writes_decimal_numbers() {
    for n in [0u64, 1, 9, 10, 99, 100, 755, 4096, u32::MAX as u64, u64::MAX] {
        assert_eq!(decimal_text(n), n.to_string());
    }
    for n in [0i32, 1, -1, 10, -10, 127, i32::MAX, i32::MIN] {
        assert_eq!(signed_decimal_text(n), n.to_string());
    }
}

#[test]
fn reads_decimal_numbers() {
    let samples = [
        "", "+", "-", "0", "-0", "+0", "007", "12", "+12", "++1", "1+", " 1", "1 ", "1_0", "0x1",
        "4294967295", "4294967296", "00000000004294967295", "99999999999999999999999", "１",
    ];
    for s in samples {
        assert_eq!(parse_u32(s), s.parse::<u32>().ok(), "{}", s);
    }
}

#[test]
fn numbers_survive_writing_and_reading() {
    for n in [0u32, 7, 10, 1234567890, u32::MAX] {
        assert_eq!(parse_u32(&decimal_text(n as u64)), Some(n));
    }
}
