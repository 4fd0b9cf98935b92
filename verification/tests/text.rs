use zeke::http::text::{
    chars_of, decimal_of, extend, find_from, lines_of, parse_u16, pattern, push_str, same, same_text,
    slice_of, split_at_each, starts_with_at, text_in, trimmed, whitespace,
};

fn chars(text: &str) -> Vec<char> {
    text.chars().collect()
}

fn strings(pieces: Vec<Vec<char>>) -> Vec<String> {
    pieces.iter().map(|piece| piece.iter().collect()).collect()
}

fn split(text: &str, pattern: &str) -> Vec<String> {
    strings(split_at_each(&chars(text), &chars(pattern)))
}

fn lines(text: &str) -> Vec<String> {
    strings(lines_of(&chars(text)))
}

fn trim(text: &str) -> String {
    trimmed(&chars(text)).iter().collect()
}

#[test]
fn chars_of_gives_the_characters_in_order() {
    assert_eq!(chars_of("héllo"), vec!['h', 'é', 'l', 'l', 'o']);
    assert_eq!(chars_of(""), Vec::<char>::new());
}

#[test]
fn texts_grow_at_their_end() {
    let mut text = pattern('a');
    assert_eq!(text, vec!['a']);
    extend(&mut text, &['b', 'c']);
    extend(&mut text, &[]);
    push_str(&mut text, "dé");
    push_str(&mut text, "");
    assert_eq!(text, chars("abcdé"));
}

#[test]
fn an_empty_pattern_splits_nothing() {
    assert_eq!(split("abc", ""), vec!["abc"]);
    assert_eq!(split("", ""), vec![""]);
}

#[test]
fn slice_of_copies_a_range() {
    assert_eq!(slice_of(&chars("abcdef"), 1, 4), chars("bcd"));
    assert_eq!(slice_of(&chars("abcdef"), 2, 2), chars(""));
    assert_eq!(slice_of(&chars("abcdef"), 0, 6), chars("abcdef"));
}

#[test]
fn same_compares_by_characters() {
    assert!(same(&chars("GET"), &chars("GET")));
    assert!(!same(&chars("GET"), &chars("GE")));
    assert!(!same(&chars("GET"), &chars("PUT")));
    assert!(same(&chars(""), &chars("")));
    assert!(same_text("abc", "abc"));
    assert!(!same_text("abc", "abd"));
}

#[test]
fn starts_with_at_looks_at_one_position() {
    assert!(starts_with_at(&chars("a; b"), &chars("; "), 1));
    assert!(!starts_with_at(&chars("a; b"), &chars("; "), 0));
    assert!(!starts_with_at(&chars("a; b"), &chars("; "), 3));
    assert!(starts_with_at(&chars("abc"), &chars(""), 3));
}

#[test]
fn find_from_reports_the_leftmost_occurrence() {
    assert_eq!(find_from(&chars("a:b:c"), &chars(":"), 0), Some(1));
    assert_eq!(find_from(&chars("a:b:c"), &chars(":"), 2), Some(3));
    assert_eq!(find_from(&chars("a:b:c"), &chars(":"), 4), None);
    assert_eq!(find_from(&chars("abc"), &chars("abcd"), 0), None);
    assert_eq!(find_from(&chars(";; x"), &chars("; "), 0), Some(1));
}

#[test]
fn split_agrees_with_the_standard_library() {
    let samples = [
        "", " ", "a", "a b", "a  b", " a b ", "GET / HTTP/1.1", "a=1&b=2&&c", "k=v=w", "=", "a; b; c",
        "a;; b", "; ", "; ; ", "x;", "héllo wörld", "a:b:c", "::",
    ];
    let patterns = [" ", "&", "=", ":", ";", "; ", "?"];
    for sample in samples {
        for pattern in patterns {
            let expected: Vec<String> = sample.split(pattern).map(String::from).collect();
            assert_eq!(split(sample, pattern), expected, "{:?} by {:?}", sample, pattern);
        }
    }
}

#[test]
fn split_of_a_text_without_the_pattern_is_the_text() {
    assert_eq!(split("abc", " "), vec!["abc"]);
    assert_eq!(split("", " "), vec![""]);
}

#[test]
fn lines_agree_with_the_standard_library() {
    let samples = [
        "", "a", "a\n", "a\r\n", "a\r", "\n", "\r\n", "\r", "a\nb", "a\r\nb\r\n", "a\n\nb", "a\r\n\r\n",
        "a\r\r\nb", "GET / HTTP/1.1\r\nHost: localhost\r\n\r\n", "\n\n", "a\n\r", "x\r\ny\rz\n",
    ];
    for sample in samples {
        let expected: Vec<String> = sample.lines().map(String::from).collect();
        assert_eq!(lines(sample), expected, "{:?}", sample);
    }
}

#[test]
fn lines_keep_a_carriage_return_that_no_line_feed_follows() {
    assert_eq!(lines("a\rb"), vec!["a\rb"]);
    assert_eq!(lines("a\r"), vec!["a\r"]);
    assert_eq!(lines("a\r\n"), vec!["a"]);
}

#[test]
fn whitespace_agrees_with_the_standard_library_on_every_character() {
    for code in 0..=0x10FFFFu32 {
        if let Some(c) = char::from_u32(code) {
            assert_eq!(whitespace(c), c.is_whitespace(), "U+{:04X}", code);
        }
    }
}

#[test]
fn trim_agrees_with_the_standard_library() {
    let samples = [
        "", " ", "  ", "a", " a", "a ", " a ", "\t a b \r\n", "\u{a0}x\u{3000}", "a  b", "\u{2003}",
        " \u{feff} ",
    ];
    for sample in samples {
        assert_eq!(trim(sample), sample.trim(), "{:?}", sample);
    }
}

#[test]
fn decimal_agrees_with_the_standard_library() {
    for n in [0u64, 1, 9, 10, 11, 99, 100, 404, 65535, 65536, 1_000_000, u64::MAX] {
        let text: String = decimal_of(n).iter().collect();
        assert_eq!(text, n.to_string());
    }
}

#[test]
fn parse_u16_agrees_with_the_standard_library() {
    let samples = [
        "", "0", "7", "200", "404", "65535", "65536", "99999", "000200", "+200", "+", "++1", "-1",
        "-0", " 200", "200 ", "2 0", "20a", "a", "٣", "1234567890123456789012345678901234567890",
        "+0", "0065535", "0065536",
    ];
    for sample in samples {
        assert_eq!(parse_u16(&chars(sample)), sample.parse::<u16>().ok(), "{:?}", sample);
    }
}

#[test]
fn parse_u16_reads_exact_values() {
    assert_eq!(parse_u16(&chars("200")), Some(200));
    assert_eq!(parse_u16(&chars("+65535")), Some(65535));
    assert_eq!(parse_u16(&chars("65536")), None);
    assert_eq!(parse_u16(&chars("")), None);
}

#[test]
fn text_in_stops_at_the_first_zero_byte() {
    assert_eq!(text_in(b"abc\0def"), Ok("abc".to_string()));
    assert_eq!(text_in(b"abc"), Ok("abc".to_string()));
    assert_eq!(text_in(b"\0abc"), Ok("".to_string()));
    assert_eq!(text_in(b""), Ok("".to_string()));
    assert_eq!(text_in("héllo".as_bytes()), Ok("héllo".to_string()));
}

#[test]
fn text_in_refuses_bytes_that_are_no_text() {
    let result = text_in(&[0x41, 0xff, 0x42]);
    let why = result.unwrap_err();
    assert_eq!(why, format!("{:?}", String::from_utf8(vec![0x41, 0xff, 0x42]).unwrap_err()));
    assert!(text_in(&[0xc3]).is_err());
    assert!(text_in(&[0x41, 0x00, 0xff]).is_ok());
}
