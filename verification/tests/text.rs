use minisql::text::{
    chars_of, compare_text, holds_char, integer_to_text, is_whitespace_char, parse_integer,
    qualified_name, read_integer, same_text, string_of, trim_range, trimmed, TextOrder,
};

#[test]
fn texts_are_ordered_by_their_characters() {
    assert_eq!(compare_text("", ""), TextOrder::Equal);
    assert_eq!(compare_text("", "a"), TextOrder::Less);
    assert_eq!(compare_text("a", ""), TextOrder::Greater);
    assert_eq!(compare_text("abc", "abd"), TextOrder::Less);
    assert_eq!(compare_text("abc", "ab"), TextOrder::Greater);
    assert_eq!(compare_text("Zebra", "apple"), TextOrder::Less);
    assert_eq!(compare_text("é", "z"), TextOrder::Greater);
    assert_eq!(compare_text("\u{ffff}", "\u{10000}"), TextOrder::Less);
    assert_eq!(compare_text("same", "same"), TextOrder::Equal);
    assert!(same_text("same", "same"));
    assert!(!same_text("same", "sama"));
}

#[test]
fn text_order_agrees_with_the_order_of_strings() {
    let samples = ["", "a", "ab", "b", "B", "é", "\u{10000}", "\u{ffff}", "a b", "a\u{0}"];
    for x in samples {
        for y in samples {
            let expected = if x < y {
                TextOrder::Less
            } else if x == y {
                TextOrder::Equal
            } else {
                TextOrder::Greater
            };
            assert_eq!(compare_text(x, y), expected);
        }
    }
}

#[test]
fn characters_and_strings_convert_both_ways() {
    let chars = chars_of("héllo");
    assert_eq!(chars, vec!['h', 'é', 'l', 'l', 'o']);
    assert_eq!(string_of(&chars, 1, 4), "éll");
    assert_eq!(string_of(&chars, 2, 2), "");
    assert_eq!(qualified_name("orders", "id"), "orders.id");
    assert_eq!(qualified_name("", ""), ".");
}

#[test]
fn trimming_takes_line_breaks_off_both_ends_only() {
    assert_eq!(trimmed("\r\nab\ncd\n\r"), "ab\ncd");
    assert_eq!(trimmed("\r\n\r"), "");
    assert_eq!(trimmed(" ab\t"), " ab\t");
    assert_eq!(trimmed(""), "");
    let chars = chars_of("x\n\ny\n");
    assert_eq!(trim_range(&chars, 1, 5), (3, 4));
    assert_eq!(trim_range(&chars, 1, 3), (3, 3));
}

#[test]
fn white_space_agrees_with_the_standard_library() {
    let mut code: u32 = 0;
    while code <= 0x10FFFF {
        if let Some(c) = char::from_u32(code) {
            assert_eq!(is_whitespace_char(c), c.is_whitespace());
        }
        code += 1;
    }
}

#[test]
fn integer_literals() {
    assert_eq!(parse_integer("0"), Some(0));
    assert_eq!(parse_integer("42"), Some(42));
    assert_eq!(parse_integer("007"), Some(7));
    assert_eq!(parse_integer("9223372036854775807"), Some(i64::MAX));
    assert_eq!(parse_integer("9223372036854775808"), None);
    assert_eq!(parse_integer("99999999999999999999999"), None);
    assert_eq!(parse_integer(""), None);
    assert_eq!(parse_integer("-1"), None);
    assert_eq!(parse_integer("+1"), None);
    assert_eq!(parse_integer("1 "), None);
    assert_eq!(parse_integer("1a"), None);
    assert_eq!(parse_integer("٣"), None);
    let chars = chars_of("a123b");
    assert_eq!(read_integer(&chars, 1, 4), Some(123));
    assert_eq!(read_integer(&chars, 1, 5), None);
    assert_eq!(read_integer(&chars, 2, 2), None);
}

#[test]
fn integers_are_written_in_decimal() {
    for n in [0, 1, 9, 10, 99, 100, 12345, -1, -10, i64::MAX, i64::MIN, i64::MIN + 1] {
        assert_eq!(integer_to_text(n), n.to_string());
    }
}

#[test]
fn written_integers_are_read_back() {
    for n in [0, 7, 10, 1000, 4611686018427387904, i64::MAX] {
        assert_eq!(parse_integer(&integer_to_text(n)), Some(n));
    }
}

#[test]
fn membership_in_a_set_of_characters() {
    assert!(holds_char(&[',', ' ', '\n'], ' '));
    assert!(!holds_char(&[',', ' ', '\n'], '\r'));
    assert!(!holds_char(&[], 'a'));
}
