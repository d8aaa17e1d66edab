use upload_download::text::{chars_of, replaced, trimmed, white_space};

#[test]
fn trim_removes_unicode_white_space() {
    assert_eq!(trimmed("  a b \n"), "a b");
    assert_eq!(trimmed("\u{3000}x\u{2028}"), "x");
    assert_eq!(trimmed("   "), "");
    assert_eq!(trimmed(""), "");
    assert_eq!(trimmed("\u{200b}x"), "\u{200b}x");
}

#[test]
fn white_space_agrees_with_std() {
    for u in 0u32..0x3100 {
        if let Some(c) = char::from_u32(u) {
            assert_eq!(white_space(c), c.is_whitespace(), "{:x}", u);
        }
    }
}

#[test]
fn replace_is_left_to_right_without_overlap() {
    assert_eq!(replaced("aaaa", "aa", "b"), "bb");
    assert_eq!(replaced("aaa", "aa", "b"), "ba");
    assert_eq!(replaced("xyz", "q", "w"), "xyz");
    assert_eq!(replaced("a-b-c", "-", "--"), "a--b--c");
}

#[test]
fn chars_of_keeps_order() {
    assert_eq!(chars_of("héllo"), vec!['h', 'é', 'l', 'l', 'o']);
}
