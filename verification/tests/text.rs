use social_graph::text::{chars_of, contains_chars, is_whitespace_char, parse_id, push_decimal, trim};

#[test]
fn chars_are_copied_in_order() {
    assert_eq!(chars_of("héllo"), vec!['h', 'é', 'l', 'l', 'o']);
    assert_eq!(chars_of(""), Vec::<char>::new());
}

#[test]
fn substring_search_finds_every_position() {
    let has = |text: &str, pattern: &str| contains_chars(&chars_of(text), &chars_of(pattern));
    assert!(has("Charlie", "Char"));
    assert!(has("Charlie", "lie"));
    assert!(has("Charlie", "arl"));
    assert!(has("Charlie", "Charlie"));
    assert!(has("Charlie", ""));
    assert!(has("", ""));
    assert!(has("aab", "ab"));
    assert!(!has("Charlie", "charlie"));
    assert!(!has("Charlie", "Charlie "));
    assert!(!has("Charlie", "lei"));
    assert!(!has("", "a"));
    assert!(!has("abab", "abb"));
}

#[test]
fn substring_search_agrees_with_std() {
    let texts = ["", "a", "ab", "aba", "abab", "bbba", "Bob Roberts", "né"];
    for text in texts {
        for pattern in texts {
            assert_eq!(
                contains_chars(&chars_of(text), &chars_of(pattern)),
                text.contains(pattern),
                "{:?} in {:?}",
                pattern,
                text
            );
        }
    }
}

#[test]
fn white_space_is_what_std_calls_white_space() {
    let mut code: u32 = 0;
    while code <= 0x10FFFF {
        if let Some(c) = char::from_u32(code) {
            assert_eq!(is_whitespace_char(c), c.is_whitespace(), "U+{:04X}", code);
        }
        code += 1;
    }
}

#[test]
fn trim_removes_surrounding_white_space_only() {
    assert_eq!(trim("  Ann  "), "Ann");
    assert_eq!(trim("Ann"), "Ann");
    assert_eq!(trim("\t\r\n Ann Lee\u{3000}\u{a0}"), "Ann Lee");
    assert_eq!(trim("   "), "");
    assert_eq!(trim(""), "");
    assert_eq!(trim(" é "), "é");
    assert_eq!(trim("a  b"), "a  b");
    assert_eq!(trim("_ "), "_");
}

#[test]
fn trim_agrees_with_std() {
    for text in ["", " ", " a", "a ", " a b ", "\u{2003}x\u{2003}", "\u{200b}x", "x\u{85}"] {
        assert_eq!(trim(text), text.trim(), "{:?}", text);
    }
}

#[test]
fn ids_are_read_as_decimal_numbers() {
    assert_eq!(parse_id("0"), Some(0));
    assert_eq!(parse_id("7"), Some(7));
    assert_eq!(parse_id("42"), Some(42));
    assert_eq!(parse_id("007"), Some(7));
    assert_eq!(parse_id("+15"), Some(15));
    assert_eq!(parse_id("13866"), Some(13866));
    assert_eq!(parse_id(&usize::MAX.to_string()), Some(usize::MAX));
}

#[test]
fn malformed_ids_are_refused() {
    assert_eq!(parse_id(""), None);
    assert_eq!(parse_id("+"), None);
    assert_eq!(parse_id("-"), None);
    assert_eq!(parse_id("-1"), None);
    assert_eq!(parse_id("-0"), None);
    assert_eq!(parse_id("++1"), None);
    assert_eq!(parse_id("1+"), None);
    assert_eq!(parse_id(" 1"), None);
    assert_eq!(parse_id("1 "), None);
    assert_eq!(parse_id("1_000"), None);
    assert_eq!(parse_id("1.0"), None);
    assert_eq!(parse_id("12a"), None);
    assert_eq!(parse_id("a12"), None);
    assert_eq!(parse_id("١٢"), None);
    assert_eq!(parse_id("0x10"), None);
}

#[test]
fn ids_that_do_not_fit_are_refused() {
    let max = usize::MAX.to_string();
    let mut above = max.clone().into_bytes();
    let last = above.len() - 1;
    above[last] += 1;
    assert_eq!(parse_id(&String::from_utf8(above).unwrap()), None);
    assert_eq!(parse_id(&format!("{}0", max)), None);
    assert_eq!(parse_id(&format!("{}x", max)), None);
    assert_eq!(parse_id("99999999999999999999999999999999999999999"), None);
    assert_eq!(parse_id(&format!("000{}", max)), Some(usize::MAX));
}

#[test]
fn id_reading_agrees_with_std() {
    for text in ["", "+", "-", "+0", "-0", "00", "5", "+5", "-5", "5+", "18446744073709551615",
        "18446744073709551616", "4294967295", "4294967296", "1e3", " 1", "٣"]
    {
        assert_eq!(parse_id(text), text.parse::<usize>().ok(), "{:?}", text);
    }
}

#[test]
fn numbers_are_appended_in_decimal() {
    let shown = |n: usize| {
        let mut out = String::from("n=");
        push_decimal(&mut out, n);
        out
    };
    assert_eq!(shown(0), "n=0");
    assert_eq!(shown(2), "n=2");
    assert_eq!(shown(9), "n=9");
    assert_eq!(shown(10), "n=10");
    assert_eq!(shown(101), "n=101");
    assert_eq!(shown(9876543210), "n=9876543210");
    assert_eq!(shown(usize::MAX), format!("n={}", usize::MAX));
}
