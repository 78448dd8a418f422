use orl::text::{
    chars_of, cut_once, decimal_text, find_from, find_last, has_prefix, has_suffix, has_text,
    is_before, is_white_space, matches_at, parse_u64, parse_usize, replace_text, same_text,
    sorted_unique, split_lines, split_text, trim, trim_end_char, trim_end_text, trim_start_text,
};

fn strings(v: &[&str]) -> Vec<String> {
    v.iter().map(|s| s.to_string()).collect()
}

#[test]
fn trimming_follows_std() {
    for s in ["", " ", " a ", "\t\u{a0}x y\u{3000}\n", "\u{200b}z", "a%%", "%", "a%b%"] {
        assert_eq!(trim(s), s.trim());
        assert_eq!(trim_end_char(s, '%'), s.trim_end_matches('%'));
    }
    for s in ["", "abab", "ababx", "xabab", "ab", "aab"] {
        assert_eq!(trim_start_text(s, "ab"), s.trim_start_matches("ab"));
        assert_eq!(trim_end_text(s, "ab"), s.trim_end_matches("ab"));
    }
}

#[test]
fn white_space_follows_std() {
    for code in 0..0x3100u32 {
        if let Some(c) = char::from_u32(code) {
            assert_eq!(is_white_space(c), c.is_whitespace(), "{:x}", code);
        }
    }
}

#[test]
fn splitting_follows_std() {
    for s in ["", ",", "a", "a,b", ",a,,b,", "ä,ö"] {
        let expected: Vec<&str> = s.split(',').collect();
        assert_eq!(split_text(s, ','), expected);
        assert_eq!(cut_once(s, ','), s.split_once(','));
    }
    for s in ["", "\n", "a", "a\n", "a\r\nb\r", "\n\nx\r\n\r\n"] {
        let expected: Vec<&str> = s.lines().collect();
        assert_eq!(split_lines(s), expected);
    }
}

#[test]
fn searching_follows_std() {
    for (s, p) in [("", ""), ("abc", ""), ("abc", "bc"), ("abc", "ab"), ("abc", "x"), ("a", "ab")] {
        assert_eq!(has_prefix(s, p), s.starts_with(p));
        assert_eq!(has_suffix(s, p), s.ends_with(p));
        assert_eq!(has_text(s, p), s.contains(p));
        assert_eq!(same_text(s, p), s == p);
        assert_eq!(is_before(s, p), s < p);
    }
    let cs = chars_of("a[b[c]d]e");
    assert_eq!(find_from(&cs, '[', 0), Some(1));
    assert_eq!(find_from(&cs, '[', 2), Some(3));
    assert_eq!(find_from(&cs, '?', 0), None);
    assert_eq!(find_last(&cs, ']'), Some(7));
    assert_eq!(find_last(&cs, '?'), None);
    assert!(matches_at(&cs, &chars_of("[c]"), 3));
    assert!(!matches_at(&cs, &chars_of("[c]"), 8));
}

#[test]
fn numbers_follow_std() {
    for s in [
        "", "+", "-1", "0", "+7", "007", "++1", "1_0", " 1", "18446744073709551615",
        "18446744073709551616", "99999999999999999999999",
    ] {
        assert_eq!(parse_u64(s), s.parse::<u64>().ok(), "{:?}", s);
        assert_eq!(parse_usize(s), s.parse::<usize>().ok(), "{:?}", s);
    }
    for n in [0u64, 9, 10, 1234567890, u64::MAX] {
        assert_eq!(decimal_text(n), n.to_string());
        assert_eq!(parse_u64(&decimal_text(n)), Some(n));
    }
}

#[test]
fn sorting_keeps_each_text_once() {
    let v = strings(&["b", "a", "b", "", "ab", "a"]);
    assert_eq!(sorted_unique(&v), strings(&["", "a", "ab", "b"]));
    let mut other = v.clone();
    other.reverse();
    assert_eq!(sorted_unique(&other), sorted_unique(&v));
}

#[test]
fn replacing_follows_std() {
    for (s, p, q) in [("aaa", "aa", "b"), ("", "x", "y"), ("xaxbx", "x", "yy"), ("ab", "ab", "")] {
        assert_eq!(replace_text(s, p, q), s.replace(p, q));
    }
}
