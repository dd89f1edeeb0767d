use config_diff::text::{collect, find_in, is_space_char, to_chars, trim_range};
use config_diff::{is_whitespace, parse_line, Line};

#[test]
fn whitespace_only_is_blank() {
    assert_eq!(parse_line(""), Line::Blank);
    assert_eq!(parse_line("   "), Line::Blank);
    assert_eq!(parse_line("\t \r"), Line::Blank);
    assert_eq!(parse_line("\u{2028}\u{3000}"), Line::Blank);
}

#[test]
fn comment_only_is_blank() {
    assert_eq!(parse_line(";"), Line::Blank);
    assert_eq!(parse_line("; k = v"), Line::Blank);
    assert_eq!(parse_line("   ;[s]"), Line::Blank);
}

#[test]
fn header_is_recognized() {
    assert_eq!(parse_line("[s]"), Line::Section("s".to_string()));
    assert_eq!(parse_line("  [s]  ; the section"), Line::Section("s".to_string()));
    assert_eq!(parse_line("[]"), Line::Section(String::new()));
    assert_eq!(parse_line("[ a b ]"), Line::Section(" a b ".to_string()));
    assert_eq!(parse_line("[[x]]"), Line::Section("[x]".to_string()));
    assert_eq!(parse_line("[a]b]"), Line::Section("a]b".to_string()));
}

#[test]
fn header_takes_priority_over_assignment() {
    assert_eq!(parse_line("[a=b]"), Line::Section("a=b".to_string()));
}

#[test]
fn comment_can_break_a_header() {
    assert_eq!(parse_line("[a;b]"), Line::Unrecognized);
    assert_eq!(parse_line("[a=1;b]"), Line::Pair("[a".to_string(), "1".to_string()));
}

#[test]
fn assignment_is_split_at_first_equal_sign() {
    assert_eq!(parse_line("k=v"), Line::Pair("k".to_string(), "v".to_string()));
    assert_eq!(parse_line(" k = v "), Line::Pair("k".to_string(), "v".to_string()));
    assert_eq!(parse_line("k=v ; comment"), Line::Pair("k".to_string(), "v".to_string()));
    assert_eq!(parse_line("a=b=c"), Line::Pair("a".to_string(), "b=c".to_string()));
    assert_eq!(parse_line("k="), Line::Pair("k".to_string(), String::new()));
    assert_eq!(parse_line("=v"), Line::Pair(String::new(), "v".to_string()));
    assert_eq!(parse_line("a b = c d"), Line::Pair("a b".to_string(), "c d".to_string()));
}

#[test]
fn line_without_equal_sign_is_unrecognized() {
    assert_eq!(parse_line("stray prose"), Line::Unrecognized);
    assert_eq!(parse_line("[open"), Line::Unrecognized);
    assert_eq!(parse_line("close]"), Line::Unrecognized);
    assert_eq!(parse_line("["), Line::Unrecognized);
    assert_eq!(parse_line("]"), Line::Unrecognized);
}

#[test]
fn is_whitespace_on_strings() {
    assert!(is_whitespace(""));
    assert!(is_whitespace(" \t\r\n\u{b}\u{c}"));
    assert!(is_whitespace("\u{85}\u{a0}\u{1680}\u{2000}\u{200a}\u{2028}\u{2029}\u{202f}\u{205f}\u{3000}"));
    assert!(!is_whitespace(" a "));
    assert!(!is_whitespace(";"));
    assert!(!is_whitespace("\u{200b}"));
    assert!(!is_whitespace("\u{180e}"));
}

#[test]
fn whitespace_class_is_that_of_the_standard_library() {
    let mut code: u32 = 0;
    while code <= 0x10FFFF {
        if let Some(c) = char::from_u32(code) {
            assert_eq!(is_space_char(c), c.is_whitespace(), "U+{:04X}", code);
        }
        code += 1;
    }
}

#[test]
fn chars_are_collected_in_order() {
    let chars = to_chars("h\u{e9}llo w\u{f6}rld");
    assert_eq!(chars.len(), 11);
    assert_eq!(chars[1], '\u{e9}');
    assert_eq!(collect(&chars, 0, 5), "h\u{e9}llo");
    assert_eq!(collect(&chars, 6, 11), "w\u{f6}rld");
    assert_eq!(collect(&chars, 3, 3), "");
}

#[test]
fn find_in_gives_first_position_or_end() {
    let chars = to_chars("a=b=c");
    assert_eq!(find_in(&chars, 0, 5, '='), 1);
    assert_eq!(find_in(&chars, 2, 5, '='), 3);
    assert_eq!(find_in(&chars, 4, 5, '='), 5);
    assert_eq!(find_in(&chars, 0, 1, '='), 1);
    assert_eq!(find_in(&chars, 0, 0, '='), 0);
}

#[test]
fn trim_range_gives_tight_bounds() {
    let chars = to_chars("  a b  ");
    assert_eq!(trim_range(&chars, 0, 7), (2, 5));
    assert_eq!(trim_range(&chars, 3, 7), (4, 5));
    assert_eq!(trim_range(&chars, 5, 7), (7, 7));
    assert_eq!(trim_range(&chars, 2, 3), (2, 3));
}
