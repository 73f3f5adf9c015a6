use conduit_core::text::{
    chars_of, decimal, lines, parse_u32, split_char, splitn_char, string_of, trim_chars,
    trim_end_chars,
};

fn cs(s: &str) -> Vec<char> {
    s.chars().collect()
}

fn strings(v: Vec<Vec<char>>) -> Vec<String> {
    v.into_iter().map(|l| l.into_iter().collect()).collect()
}

#[test]
fn trims_unicode_white_space() {
    assert_eq!(trim_chars(&cs("\u{3000}\t a b \u{a0}\n")), cs("a b"));
    assert_eq!(trim_chars(&cs("   ")), cs(""));
    assert_eq!(trim_end_chars(&cs("  x \r\n")), cs("  x"));
}

#[test]
fn lines_like_str_lines() {
    for text in ["", "a", "a\n", "a\r\nb", "a\n\nb\n", "\r\n", "x\r", "\n\n"] {
        let expected: Vec<String> = text.lines().map(|l| l.to_string()).collect();
        assert_eq!(strings(lines(&cs(text))), expected, "text {:?}", text);
    }
}

#[test]
fn split_like_str_split() {
    for text in ["", ",", "a,b", "a,,b,", "abc"] {
        let expected: Vec<String> = text.split(',').map(|l| l.to_string()).collect();
        assert_eq!(strings(split_char(&cs(text), ',')), expected, "text {:?}", text);
        for n in 0..4 {
            let expected: Vec<String> = text.splitn(n, ',').map(|l| l.to_string()).collect();
            assert_eq!(strings(splitn_char(&cs(text), n, ',')), expected, "text {:?} n {}", text, n);
        }
    }
}

#[test]
fn parse_like_u32_from_str() {
    for text in ["0", "42", "+7", "-1", "", "+", "4294967295", "4294967296", "12a", " 1", "007", "99999999999999999999"] {
        assert_eq!(parse_u32(&cs(text)), text.parse::<u32>().ok(), "text {:?}", text);
    }
}

#[test]
fn decimal_numerals() {
    assert_eq!(decimal(0), cs("0"));
    assert_eq!(decimal(20), cs("20"));
    assert_eq!(decimal(u64::MAX), cs("18446744073709551615"));
    assert_eq!(parse_u32(&decimal(4294967295)), Some(4294967295));
}

#[test]
fn string_and_chars() {
    assert_eq!(string_of(&chars_of("héllo")), "héllo");
}
