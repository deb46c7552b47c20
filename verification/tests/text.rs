use vcs::decimal::{format_i64, format_octal, format_u64, parse_i64, parse_u64};
use vcs::order::{chars_lt, insert_sorted};
use vcs::paths::{join_path, normalize_separators, split_path};
use vcs::scan::{is_space_char, split_lines, split_tokens, trim};
use vcs::text::{chars_to_string, find_byte, find_char, starts_with, string_chars};

fn chars(s: &str) -> Vec<char> {
    s.chars().collect()
}

fn texts(list: Vec<Vec<char>>) -> Vec<String> {
    list.iter().map(|v| v.iter().collect()).collect()
}

#[test]
fn strings_and_characters_convert_both_ways() {
    assert_eq!(string_chars("a\u{e9}\u{1f600}"), vec!['a', '\u{e9}', '\u{1f600}']);
    assert_eq!(chars_to_string(&vec!['a', '\u{e9}', '\u{1f600}']), "a\u{e9}\u{1f600}");
    assert_eq!(chars_to_string(&Vec::new()), "");
}

#[test]
fn finding_the_first_occurrence() {
    assert_eq!(find_char(&chars("a/b/c"), 0, '/'), 1);
    assert_eq!(find_char(&chars("a/b/c"), 2, '/'), 3);
    assert_eq!(find_char(&chars("a/b/c"), 4, '/'), 5);
    assert_eq!(find_char(&chars(""), 0, '/'), 0);
    assert_eq!(find_byte(b"ab\0cd\0", 0, 0), 2);
    assert_eq!(find_byte(b"ab\0cd\0", 3, 0), 5);
    assert_eq!(find_byte(b"abc", 0, 0), 3);
    assert!(starts_with(&chars("tree abc"), &chars("tree ")));
    assert!(!starts_with(&chars("tre"), &chars("tree ")));
    assert!(starts_with(&chars("x"), &chars("")));
}

#[test]
fn decimal_numbers_are_written() {
    assert_eq!(chars_to_string(&format_u64(0)), "0");
    assert_eq!(chars_to_string(&format_u64(7)), "7");
    assert_eq!(chars_to_string(&format_u64(1234567890)), "1234567890");
    assert_eq!(chars_to_string(&format_u64(u64::MAX)), "18446744073709551615");
    assert_eq!(chars_to_string(&format_i64(0)), "0");
    assert_eq!(chars_to_string(&format_i64(-1)), "-1");
    assert_eq!(chars_to_string(&format_i64(i64::MIN)), "-9223372036854775808");
    assert_eq!(chars_to_string(&format_i64(i64::MAX)), "9223372036854775807");
    assert_eq!(chars_to_string(&format_octal(0o644)), "644");
}

#[test]
fn decimal_numbers_are_read() {
    assert_eq!(parse_i64(&chars("0")), Some(0));
    assert_eq!(parse_i64(&chars("-0")), Some(0));
    assert_eq!(parse_i64(&chars("+17")), Some(17));
    assert_eq!(parse_i64(&chars("007")), Some(7));
    assert_eq!(parse_i64(&chars("-9223372036854775808")), Some(i64::MIN));
    assert_eq!(parse_i64(&chars("9223372036854775807")), Some(i64::MAX));
    assert_eq!(parse_i64(&chars("9223372036854775808")), None);
    assert_eq!(parse_i64(&chars("-9223372036854775809")), None);
    assert_eq!(parse_i64(&chars("")), None);
    assert_eq!(parse_i64(&chars("-")), None);
    assert_eq!(parse_i64(&chars("+")), None);
    assert_eq!(parse_i64(&chars("1 ")), None);
    assert_eq!(parse_i64(&chars("--1")), None);
    assert_eq!(parse_i64(&chars("12a")), None);
    assert_eq!(parse_i64(&chars("\u{661}")), None);
    assert_eq!(parse_u64(&chars("18446744073709551615"), u64::MAX), Some(u64::MAX));
    assert_eq!(parse_u64(&chars("18446744073709551616"), u64::MAX), None);
    assert_eq!(parse_u64(&chars("+5"), 5), Some(5));
    assert_eq!(parse_u64(&chars("6"), 5), None);
    assert_eq!(parse_u64(&chars("-5"), 5), None);
    assert_eq!(parse_u64(&chars("0"), 0), Some(0));
}

#[test]
fn reading_agrees_with_the_standard_library() {
    for text in ["0", "-0", "+0", "42", "-42", "+-1", "9223372036854775807", "1e3", " 1", "٣"] {
        assert_eq!(parse_i64(&chars(text)), text.parse::<i64>().ok());
        assert_eq!(parse_u64(&chars(text), u64::MAX), text.parse::<u64>().ok());
    }
    for n in [0i64, 1, -1, 10, -10, 99, 100, 123456789, i64::MIN, i64::MAX] {
        assert_eq!(chars_to_string(&format_i64(n)), n.to_string());
        assert_eq!(parse_i64(&format_i64(n)), Some(n));
    }
}

#[test]
fn white_space_is_what_the_standard_library_says() {
    for code in 0u32..=0x10ffff {
        if let Some(c) = char::from_u32(code) {
            assert_eq!(is_space_char(c), c.is_whitespace());
        }
    }
}

#[test]
fn trimming_removes_white_space_at_both_ends() {
    assert_eq!(chars_to_string(&trim(&chars("  a b \t\n"))), "a b");
    assert_eq!(chars_to_string(&trim(&chars("\u{a0}x\u{3000}"))), "x");
    assert_eq!(chars_to_string(&trim(&chars("   "))), "");
    assert_eq!(chars_to_string(&trim(&chars(""))), "");
    assert_eq!(chars_to_string(&trim(&chars("x"))), "x");
}

#[test]
fn lines_are_split_as_the_standard_library_does() {
    let samples = [
        "", "a", "a\n", "a\nb", "a\r\nb\r\n", "\n", "\n\n", "a\r", "a\r\n\rb", "\r\n", "a\n\nb\n",
        "\ra\n",
    ];
    for text in samples {
        let expected: Vec<String> = text.lines().map(|l| l.to_string()).collect();
        assert_eq!(texts(split_lines(&chars(text))), expected);
    }
}

#[test]
fn tokens_are_split_as_the_standard_library_does() {
    for text in ["", " ", "blob 12", "  blob \t 12 \n", "a", "a\u{a0}b\u{2003}c", " a  b c"] {
        let expected: Vec<String> = text.split_whitespace().map(|l| l.to_string()).collect();
        assert_eq!(texts(split_tokens(&chars(text))), expected);
    }
}

#[test]
fn texts_are_ordered_like_strings() {
    let samples = [
        "", "a", "A", "ab", "b", "a/b", "a.txt", "\u{e9}", "\u{1f600}", "z", "aa", "\u{ffff}",
        "\u{10000}",
    ];
    for a in samples {
        for b in samples {
            assert_eq!(chars_lt(&chars(a), &chars(b)), a < b);
        }
    }
}

#[test]
fn sorted_insertion_keeps_order_and_drops_repeats() {
    let mut list: Vec<Vec<char>> = Vec::new();
    for name in ["m", "a", "z", "m", "b", "a", ""] {
        insert_sorted(&mut list, chars(name));
    }
    assert_eq!(texts(list), vec!["", "a", "b", "m", "z"]);
}

#[test]
fn paths_are_split_and_joined() {
    assert_eq!(texts(split_path(&chars("a/b/c.txt"))), vec!["a", "b", "c.txt"]);
    assert_eq!(texts(split_path(&chars("/a//b/"))), vec!["a", "b"]);
    assert_eq!(texts(split_path(&chars(""))), Vec::<String>::new());
    assert_eq!(texts(split_path(&chars("///"))), Vec::<String>::new());
    assert_eq!(texts(split_path(&chars("name"))), vec!["name"]);
    assert_eq!(chars_to_string(&join_path(&chars(""), &chars("a"))), "a");
    assert_eq!(chars_to_string(&join_path(&chars("x/y"), &chars("a"))), "x/y/a");
    assert_eq!(chars_to_string(&normalize_separators(&chars("a\\b/c\\"))), "a/b/c/");
    assert_eq!(vcs::paths::to_slashes("dir\\sub\\file.txt"), "dir/sub/file.txt");
    assert_eq!(vcs::paths::to_slashes("already/fine"), "already/fine");
}

#[test]
fn trimming_agrees_with_the_standard_library() {
    let samples = [
        "", " ", "a", " a", "a ", "\t a b \r\n", "\u{85}x\u{2028}", "x\u{200b}", "\u{feff}x",
        " \u{3000} ",
    ];
    for text in samples {
        assert_eq!(chars_to_string(&trim(&chars(text))), text.trim());
    }
}
