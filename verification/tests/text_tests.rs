use toq_rs::table::NameTable;
use toq_rs::text::{char_is_whitespace, decimal_string, str_contains, str_starts_with, trim};

#[test]
fn whitespace_agrees_with_std() {
    for u in 0u32..0x11_0000 {
        if let Some(c) = char::from_u32(u) {
            assert_eq!(char_is_whitespace(c), c.is_whitespace(), "U+{u:04X}");
        }
    }
}

#[test]
fn trim_agrees_with_std() {
    for s in ["", "  ", " a ", "\u{3000}x y\t\n", "ab", "\r\n/p:i:r\r"] {
        assert_eq!(trim(s), s.trim());
    }
}

#[test]
fn decimal_numerals() {
    assert_eq!(decimal_string(0), "0");
    assert_eq!(decimal_string(9001), "9001");
    assert_eq!(decimal_string(65535), "65535");
    assert_eq!(decimal_string(u64::MAX), u64::MAX.to_string());
}

#[test]
fn substring_tests() {
    assert!(str_contains("/x/HOST_INFO", "HOST_INFO"));
    assert!(!str_contains("/x/HOST", "HOST_INFO"));
    assert!(str_contains("abc", ""));
    assert!(str_starts_with("MyApp._osc", "MyApp"));
    assert!(!str_starts_with("My", "MyApp"));
}

#[test]
fn name_table_insert_and_remove() {
    let mut t: NameTable<u32> = NameTable::new();
    assert_eq!(t.insert("a".into(), 1), None);
    assert_eq!(t.insert("b".into(), 2), None);
    assert_eq!(t.insert("a".into(), 3), Some(1));
    assert_eq!(t.len(), 2);
    assert_eq!(t.get("a"), Some(&3));
    assert_eq!(t.remove("b"), Some(2));
    assert_eq!(t.remove("b"), None);
    assert_eq!(t.len(), 1);
    assert_eq!(t.name_at(0), "a");
}
