use portwatch::number::{decimal, parse_u16, parse_u32};
use portwatch::text::{after_last_dot_start, split_lines, split_words, string_from_chars};

fn chars(s: &str) -> Vec<char> {
    s.chars().collect()
}

fn strings(v: &[Vec<char>]) -> Vec<String> {
    v.iter().map(|w| w.iter().collect()).collect()
}

#[test]
fn split_words_skips_runs_of_whitespace() {
    let ws = split_words(&chars("  tcp4 \t 0\u{a0}0  *.3000  "));
    assert_eq!(strings(&ws), vec!["tcp4", "0", "0", "*.3000"]);
}

#[test]
fn split_words_matches_std_on_unicode_whitespace() {
    let text = "a\u{2003}b\u{3000}c\u{85}d\u{200b}e";
    let ws = split_words(&chars(text));
    let expected: Vec<String> = text.split_whitespace().map(|s| s.to_string()).collect();
    assert_eq!(strings(&ws), expected);
}

#[test]
fn split_words_of_blank_text_is_empty() {
    assert!(split_words(&chars("")).is_empty());
    assert!(split_words(&chars(" \t\r\n")).is_empty());
}

#[test]
fn split_lines_matches_std_lines() {
    for text in ["a\r\nb\n", "a\n\nb", "\n", "", "x\r", "one\r\r\ntwo", "a\nb\r\n\r\n"] {
        let expected: Vec<String> = text.lines().map(|s| s.to_string()).collect();
        assert_eq!(strings(&split_lines(&chars(text))), expected, "text {:?}", text);
    }
}

#[test]
fn after_last_dot_start_finds_the_port_part() {
    let addr = chars("127.0.0.1.5432");
    let start = after_last_dot_start(&addr);
    assert_eq!(addr[start..].iter().collect::<String>(), "5432");
    let plain = chars("8080");
    assert_eq!(after_last_dot_start(&plain), 0);
    let trailing = chars("host.");
    assert_eq!(after_last_dot_start(&trailing), 5);
}

#[test]
fn parse_u16_matches_std() {
    for text in ["80", "+80", "0080", "65535", "65536", "", "+", "-1", "8 0", "99999999999", "٣"] {
        assert_eq!(parse_u16(&chars(text)), text.parse::<u16>().ok(), "text {:?}", text);
    }
}

#[test]
fn parse_u32_matches_std() {
    for text in ["812", "4294967295", "4294967296", "+0", "abc", "12a", ""] {
        assert_eq!(parse_u32(&chars(text)), text.parse::<u32>().ok(), "text {:?}", text);
    }
}

#[test]
fn decimal_writes_like_to_string() {
    for n in [0u64, 7, 10, 12345, u64::MAX] {
        assert_eq!(decimal(n), n.to_string());
    }
}

#[test]
fn decimal_round_trips_through_parse() {
    for n in [0u32, 9, 812, 65535, u32::MAX] {
        let s = decimal(n as u64);
        assert_eq!(parse_u32(&chars(&s)), Some(n));
    }
}

#[test]
fn string_from_chars_keeps_every_char() {
    assert_eq!(string_from_chars(&chars("pörtwätch")), "pörtwätch");
}
