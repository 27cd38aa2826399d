use activemq::text::{decimal_of, lists, number_of, push_decimal, split_once, trim};

#[test]
fn numbers_are_written_in_decimal() {
    assert_eq!(decimal_of(0), "0");
    assert_eq!(decimal_of(7), "7");
    assert_eq!(decimal_of(10), "10");
    assert_eq!(decimal_of(90_210), "90210");
    assert_eq!(decimal_of(u64::MAX), "18446744073709551615");
    let mut text = "port ".to_string();
    push_decimal(&mut text, 61_613);
    assert_eq!(text, "port 61613");
}

#[test]
fn numbers_are_read_from_decimal() {
    assert_eq!(number_of("0"), Some(0));
    assert_eq!(number_of("61613"), Some(61_613));
    assert_eq!(number_of("+7"), Some(7));
    assert_eq!(number_of("007"), Some(7));
    for text in ["", "+", "-1", "1 ", " 1", "1x", "++1", "1.0", "٣"] {
        assert_eq!(number_of(text), None, "{text}");
    }
    let most = format!("{}", usize::MAX);
    assert_eq!(number_of(&most), Some(usize::MAX));
    assert_eq!(number_of("99999999999999999999999999"), None);
    assert_eq!(number_of("18446744073709551616"), None);
}

#[test]
fn text_splits_at_the_first_of_a_character() {
    let pair = |left: &str, right: &str| Some((left.to_string(), right.to_string()));
    assert_eq!(split_once("a:b:c", ':'), pair("a", "b:c"));
    assert_eq!(split_once(":", ':'), pair("", ""));
    assert_eq!(split_once("ä/ö", '/'), pair("ä", "ö"));
    assert_eq!(split_once("abc", ':'), None);
    assert_eq!(split_once("", ':'), None);
}

#[test]
fn white_space_of_every_kind_is_trimmed() {
    let white = "\t\n\u{b}\u{c}\r \u{85}\u{a0}\u{1680}\u{2000}\u{200a}\u{2028}\u{2029}\u{202f}\u{205f}\u{3000}";
    let text = format!("{white}a b{white}");
    assert_eq!(trim(&text), "a b");
    assert_eq!(trim(white), "");
    assert_eq!(trim("\u{200b}a"), "\u{200b}a");
    assert_eq!(trim(""), "");
}

#[test]
fn trimming_agrees_with_the_standard_library_on_every_character() {
    let mut disagreed = Vec::new();
    for c in '\u{0}'..=char::MAX {
        let text = format!("{c}x{c}");
        if c as u32 <= 0x3100 && trim(&text) != text.trim() {
            disagreed.push(c);
        }
        if c as u32 > 0x3100 {
            assert!(!c.is_whitespace());
        }
    }
    assert!(disagreed.is_empty(), "{disagreed:?}");
}

#[test]
fn a_list_holds_its_pieces() {
    assert!(lists("1.2", ',', "1.2"));
    assert!(lists("1.0,1.1,1.2", ',', "1.2"));
    assert!(lists("1.0, 1.2 ,1.1", ',', "1.2"));
    assert!(!lists("1.0,1.1", ',', "1.2"));
    assert!(!lists("1.20", ',', "1.2"));
    assert!(!lists("", ',', "1.2"));
    assert!(lists(",", ',', ""));
}
