use djmd5::contacts::ContactTable;
use djmd5::lines::{quote, quoted_line};
use djmd5::numbers::{decimal_string, parse_u32};
use djmd5::sorting::sort_strings;
use djmd5::text::{append_str, join, leading_token, str_eq, str_le};

fn strings(items: &[&str]) -> Vec<String> {
    items.iter().map(|s| s.to_string()).collect()
}

#[test]
fn str_le_is_the_order_of_the_standard_library() {
    let samples = [
        "", "a", "A", "ab", "abc", "abd", "b", "10", "2", "20/30", "Default", "é", "z", "日本",
        "a b", "a_1", "a/b", "\u{10FFFF}", "\u{FFFF}", "~",
    ];
    for a in samples.iter() {
        for b in samples.iter() {
            assert_eq!(str_le(a, b), a <= b, "{:?} <= {:?}", a, b);
            assert_eq!(str_eq(a, b), a == b, "{:?} == {:?}", a, b);
        }
    }
}

#[test]
fn sort_strings_sorts_like_the_standard_library() {
    let input = strings(&["pear", "apple", "", "fig", "apple", "Zed", "é", "a", "ab", "10", "9"]);
    let mut expected = input.clone();
    expected.sort();
    assert_eq!(sort_strings(input), expected);
    assert_eq!(sort_strings(Vec::new()), Vec::<String>::new());
}

#[test]
fn leading_token_stops_at_the_first_space() {
    assert_eq!(leading_token("42 Some Group"), "42");
    assert_eq!(leading_token("42"), "42");
    assert_eq!(leading_token(""), "");
    assert_eq!(leading_token(" 42"), "");
    assert_eq!(leading_token("é1 x"), "é1");
    assert_eq!(leading_token("a\tb c"), "a\tb");
}

#[test]
fn parse_u32_reads_plain_decimal_numbers() {
    assert_eq!(parse_u32("0"), Some(0));
    assert_eq!(parse_u32("42"), Some(42));
    assert_eq!(parse_u32("007"), Some(7));
    assert_eq!(parse_u32("+5"), Some(5));
    assert_eq!(parse_u32("4294967295"), Some(4294967295));
    assert_eq!(parse_u32("00000000004294967295"), Some(4294967295));
    assert_eq!(parse_u32("4294967296"), None);
    assert_eq!(parse_u32("99999999999999999999999"), None);
    assert_eq!(parse_u32(""), None);
    assert_eq!(parse_u32("+"), None);
    assert_eq!(parse_u32("-5"), None);
    assert_eq!(parse_u32("++5"), None);
    assert_eq!(parse_u32("12a"), None);
    assert_eq!(parse_u32("a12"), None);
    assert_eq!(parse_u32(" 12"), None);
    assert_eq!(parse_u32("1 2"), None);
    assert_eq!(parse_u32("١٢"), None);
}

#[test]
fn parse_u32_agrees_with_the_standard_library() {
    for s in ["0", "1", "+1", "-1", "", "+", "-", "010", "4294967295", "4294967296", "x", "1x", "+0"]
    {
        assert_eq!(parse_u32(s), s.parse::<u32>().ok(), "{:?}", s);
    }
}

#[test]
fn decimal_string_writes_without_leading_zeros() {
    assert_eq!(decimal_string(0), "0");
    assert_eq!(decimal_string(7), "7");
    assert_eq!(decimal_string(10), "10");
    assert_eq!(decimal_string(2429135), "2429135");
    assert_eq!(decimal_string(u64::MAX), "18446744073709551615");
}

#[test]
fn append_str_and_join() {
    assert_eq!(append_str("ab", "cd"), "abcd");
    assert_eq!(append_str("", ""), "");
    assert_eq!(join(&strings(&["a", "b", "c"]), "|"), "a|b|c");
    assert_eq!(join(&strings(&["a"]), "|"), "a");
    assert_eq!(join(&strings(&[]), "|"), "");
    assert_eq!(join(&strings(&["", ""]), ", "), ", ");
}

#[test]
fn quote_wraps_each_item_in_double_quotes() {
    assert_eq!(quote(&["No.", "Radio ID", ""]), strings(&["\"No.\"", "\"Radio ID\"", "\"\""]));
    assert_eq!(quote(&[]), Vec::<String>::new());
    assert_eq!(quote(&["a\"b"]), strings(&["\"a\"b\""]));
}

#[test]
fn quoted_line_joins_quoted_fields_with_commas() {
    assert_eq!(quoted_line(&["No.", "Zone Name"]), "\"No.\",\"Zone Name\"\r\n");
    assert_eq!(quoted_line(&["1"]), "\"1\"\r\n");
    assert_eq!(quoted_line(&[]), "\r\n");
}

#[test]
fn first_label_wins() {
    let mut table = ContactTable::new();
    assert_eq!(table.resolve("42 Some Group"), "42 Some Group");
    assert_eq!(table.resolve("42 SomeGroupRenamed"), "42 Some Group");
    assert_eq!(table.len(), 1);
    assert_eq!(table.group(0).id, 42);
    assert_eq!(table.group(0).label, "42 Some Group");
}

#[test]
fn fields_without_a_number_have_no_contact() {
    let mut table = ContactTable::new();
    assert_eq!(table.resolve(""), "");
    assert_eq!(table.resolve("NONE"), "");
    assert_eq!(table.resolve("x12 abc"), "");
    assert_eq!(table.resolve(" 12"), "");
    assert_eq!(table.resolve("-3 minus"), "");
    assert_eq!(table.resolve("4294967296 too large"), "");
    assert_eq!(table.len(), 0);
}

#[test]
fn groups_keep_the_order_in_which_they_were_first_seen() {
    let mut table = ContactTable::new();
    assert_eq!(table.resolve("9 nine"), "9 nine");
    assert_eq!(table.resolve("3 three"), "3 three");
    assert_eq!(table.resolve("09 nine again"), "9 nine");
    assert_eq!(table.resolve("+3"), "3 three");
    assert_eq!(table.resolve("5"), "5");
    assert_eq!(table.len(), 3);
    let ids: Vec<u32> = (0..table.len()).map(|i| table.group(i).id).collect();
    assert_eq!(ids, vec![9, 3, 5]);
    assert_eq!(table.lookup(3).map(|s| s.as_str()), Some("3 three"));
    assert_eq!(table.lookup(4), None);
}
