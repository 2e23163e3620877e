use deskollama::text::{
    blank, chars_of, decimal_text, decoded, final_word, same, signed_decimal_text, split_at_any,
    starts_with, trimmed, white, without_prefixes, without_trailing,
};

#[test]
fn white_space_is_what_unicode_says() {
    for n in 0..=0x10ffffu32 {
        if let Some(c) = char::from_u32(n) {
            assert_eq!(white(c), c.is_whitespace(), "{:x}", n);
        }
    }
}

#[test]
fn characters_come_in_order() {
    assert_eq!(chars_of("aé\u{1f600}"), vec!['a', 'é', '\u{1f600}']);
    assert_eq!(chars_of(""), Vec::<char>::new());
}

#[test]
fn trimming_agrees_with_the_standard_library() {
    for s in ["", " ", "a", " a ", "\t\u{3000}a b\u{a0}\r\n", "é ", "\u{200b}x"] {
        assert_eq!(trimmed(s), s.trim());
        assert_eq!(blank(s), s.trim().is_empty());
        assert_eq!(trimmed(&trimmed(s)), trimmed(s));
    }
}

#[test]
fn prefixes_are_dropped_again_and_again() {
    assert_eq!(without_prefixes("ababc", "ab"), "c");
    assert_eq!(without_prefixes("abc", "b"), "abc");
    assert_eq!(without_prefixes("aaa", "a"), "");
    assert_eq!(without_prefixes("abc", ""), "abc");
}

#[test]
fn trailing_characters_are_dropped() {
    assert_eq!(without_trailing("a//", '/'), "a");
    assert_eq!(without_trailing("///", '/'), "");
    assert_eq!(without_trailing("a/b", '/'), "a/b");
}

#[test]
fn beginnings_and_equality() {
    assert!(starts_with("abc", "ab"));
    assert!(starts_with("abc", ""));
    assert!(!starts_with("a", "ab"));
    assert!(!starts_with("abc", "b"));
    assert!(same("é", "é"));
    assert!(!same("a", "A"));
}

#[test]
fn last_word_of_a_line() {
    for s in ["", "  ", "a", "a b", " a\tb \n", "[####------] 42.5%"] {
        assert_eq!(final_word(s), s.split_whitespace().last().map(str::to_string));
    }
}

#[test]
fn text_is_cut_at_every_break() {
    for s in ["", "a", "a\nb", "\r\n", "a\r\rb\n", "é\rü"] {
        let expected: Vec<String> = s.split(['\r', '\n']).map(str::to_string).collect();
        assert_eq!(split_at_any(s, "\r\n"), expected);
    }
}

#[test]
fn numbers_in_decimal() {
    for n in [0, 7, 10, 42, 100, 11434, u64::MAX] {
        assert_eq!(decimal_text(n), n.to_string());
    }
    for n in [0, -1, 1, i32::MIN, i32::MAX] {
        assert_eq!(signed_decimal_text(n), n.to_string());
    }
}

#[test]
fn bytes_that_are_not_utf8_are_replaced() {
    assert_eq!(decoded("aé".as_bytes()), "aé");
    assert_eq!(decoded(&[b'a', 0xff, b'b']), "a\u{fffd}b");
    assert_eq!(decoded(&[]), "");
}
