use byoshell::strmap::StrMap;
use byoshell::text::{
    decimal_len, find_chars, is_alphabetic, is_alphanumeric, is_control, is_whitespace, parse_i32,
    parse_u64, push_decimal, push_padded_left, push_padded_right, str_eq, to_ascii_lowercase, to_chars,
    trimmed,
};

#[test]
fn character_classes_follow_unicode() {
    assert!(is_alphabetic('a'));
    assert!(is_alphabetic('Z'));
    assert!(is_alphabetic('é'));
    assert!(is_alphabetic('ж'));
    assert!(!is_alphabetic('1'));
    assert!(!is_alphabetic('€'));
    assert!(!is_alphabetic('_'));
    assert!(is_alphanumeric('7'));
    assert!(is_alphanumeric('٣'));
    assert!(is_alphanumeric('ß'));
    assert!(!is_alphanumeric('→'));
    assert!(!is_alphanumeric('}'));
    assert!(is_whitespace('\u{3000}'));
    assert!(is_whitespace('\t'));
    assert!(!is_whitespace('x'));
    assert!(is_control('\u{7f}'));
    assert!(!is_control(' '));
}

#[test]
fn numbers_read_like_from_str() {
    assert_eq!(parse_u64("+42"), Some(42));
    assert_eq!(parse_u64("18446744073709551615"), Some(u64::MAX));
    assert_eq!(parse_u64("18446744073709551616"), None);
    assert_eq!(parse_u64(""), None);
    assert_eq!(parse_u64("-1"), None);
    assert_eq!(parse_u64(" 1"), None);
    assert_eq!(parse_i32("-2147483648"), Some(i32::MIN));
    assert_eq!(parse_i32("2147483648"), None);
    assert_eq!(parse_i32("+7"), Some(7));
    assert_eq!(parse_i32("-"), None);
}

#[test]
fn decimals_and_padding() {
    let mut s = String::new();
    push_decimal(&mut s, 0);
    push_decimal(&mut s, 1209);
    assert_eq!(s, "01209");
    assert_eq!(decimal_len(0), 1);
    assert_eq!(decimal_len(u64::MAX), 20);
    let mut p = String::new();
    push_padded_left(&mut p, "7", 3);
    push_padded_right(&mut p, "ab", 4);
    push_padded_left(&mut p, "long", 2);
    assert_eq!(p, "  7ab  long");
}

#[test]
fn trimming_and_case() {
    assert_eq!(trimmed("\u{a0} a b \n"), "a b");
    assert_eq!(trimmed("   "), "");
    assert_eq!(to_ascii_lowercase("Content-LENGTH É"), "content-length É");
    assert!(str_eq("abc", "abc"));
    assert!(!str_eq("abc", "abd"));
}

#[test]
fn substring_search() {
    let hay = to_chars("a=b=c");
    let eq = to_chars("=");
    assert_eq!(find_chars(&hay, &eq, 0), Some(1));
    assert_eq!(find_chars(&hay, &eq, 2), Some(3));
    assert_eq!(find_chars(&hay, &eq, 4), None);
}

#[test]
fn string_map_keeps_keys_sorted() {
    let mut m: StrMap<u32> = StrMap::new();
    m.insert("b".to_string(), 2);
    m.insert("a".to_string(), 1);
    m.insert("c".to_string(), 3);
    m.insert("b".to_string(), 20);
    assert_eq!(m.len(), 3);
    assert_eq!(m.get("b"), Some(&20));
    assert_eq!(m.get("z"), None);
    let (k0, v0) = m.entry(0);
    assert_eq!((k0.as_str(), *v0), ("a", 1));
    m.remove("a");
    m.remove("missing");
    assert_eq!(m.len(), 2);
    assert_eq!(m.get("a"), None);
    let mut s: StrMap<String> = StrMap::new();
    s.insert("y".to_string(), "2".to_string());
    s.insert("x".to_string(), "1".to_string());
    assert_eq!(s.pairs(), vec![("x".to_string(), "1".to_string()), ("y".to_string(), "2".to_string())]);
}
