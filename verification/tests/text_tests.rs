use url_album::album::normalize_url;
use url_album::settings::parse_settings;
use url_album::text::{
    decimal_string, find_bytes, find_str, printable, same_bytes, signed_decimal_string,
    split_lines, str_eq,
};

#[test]
fn find_gives_first_byte_index() {
    assert_eq!(find_str("abcabc", "ca"), Some(2));
    assert_eq!(find_str("abc", "x"), None);
    assert_eq!(find_str("abc", ""), Some(0));
    assert_eq!(find_str("ab", "abc"), None);
    assert_eq!(find_str("Привет, мир", "мир"), Some(14));
    assert_eq!(find_bytes(&[1, 2, 3, 2, 3], &[2, 3]), Some(1));
}

#[test]
fn replace_all_occurrences_from_the_left() {
    // Escaping replaces `&` first, everywhere, then `<` and `>`.
    assert_eq!(url_album::markup::esc("a&b&c"), "a&amp;b&amp;c");
    assert_eq!(url_album::markup::unesc("&amp;lt;"), "<");
    assert_eq!(url_album::markup::esc(""), "");
}

#[test]
fn lines_split_like_str_lines() {
    assert_eq!(split_lines("a\nb\r\nc"), vec!["a", "b", "c"]);
    assert_eq!(split_lines("a\n"), vec!["a"]);
    assert_eq!(split_lines("\n\nx"), vec!["", "", "x"]);
    assert_eq!(split_lines(""), Vec::<&str>::new());
    assert_eq!(split_lines("a\r"), vec!["a\r"]);
}

#[test]
fn decimal_texts() {
    assert_eq!(decimal_string(0), "0");
    assert_eq!(decimal_string(404), "404");
    assert_eq!(decimal_string(u64::MAX), u64::MAX.to_string());
    assert_eq!(signed_decimal_string(-42), "-42");
    assert_eq!(signed_decimal_string(i64::MIN), i64::MIN.to_string());
    assert_eq!(signed_decimal_string(7), "7");
}

#[test]
fn printable_bytes() {
    assert_eq!(printable(b"GetSystemTimeAsFileTime"), "GetSystemTimeAsFileTime");
    assert_eq!(printable(&[0xff, 0xfe]), "<non-UTF8>");
}

#[test]
fn equality_helpers() {
    assert!(same_bytes(b"abc", b"abc"));
    assert!(!same_bytes(b"abc", b"abd"));
    assert!(!same_bytes(b"ab", b"abc"));
    assert!(str_eq("folder", "folder"));
    assert!(!str_eq("folder", "Folder"));
}

#[test]
fn trimming_removes_what_std_calls_white_space() {
    for v in (0u32..0x3100).chain([0x3000, 0xFEFF, 0x200B, 0x1680, 0x205F]) {
        let Some(c) = char::from_u32(v) else { continue };
        let s = format!("{c}x{c}");
        assert_eq!(normalize_url(&s), format!("https://{}", s.trim()), "char {v:#x}");
        let text = format!("{{\"dark_theme\":{c}1}}");
        let expected = format!("{c}1}}").trim_start().starts_with('1');
        assert_eq!(parse_settings(&text).dark_theme, expected, "char {v:#x}");
    }
}
