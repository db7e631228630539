use polint::text::{
    char_is_alphanumeric, char_width, decode_char, str_eq, str_lt, substring,
};

#[test]
fn test_char_is_alphanumeric_ascii() {
    for c in ['a', 'z', 'A', 'Z', '0', '9', 'm', 'Q', '5'] {
        assert!(char_is_alphanumeric(c));
    }
    for c in ['-', '%', ' ', '_', '.', '@', '[', '`', '{', '/', ':', '\n', '\0', '\u{7f}'] {
        assert!(!char_is_alphanumeric(c));
    }
}

#[test]
fn test_char_is_alphanumeric_as_the_standard_library() {
    for code in 0..0x3000u32 {
        if let Some(c) = char::from_u32(code) {
            assert_eq!(char_is_alphanumeric(c), c.is_alphanumeric());
        }
    }
}

#[test]
fn test_char_is_alphanumeric_beyond_ascii() {
    for c in ['é', 'ô', 'м', '你', '٣', '¾', '①', '𐌰'] {
        assert!(char_is_alphanumeric(c));
    }
    for c in ['—', '«', '»', '¿', '€', '😀', '\u{a0}'] {
        assert!(!char_is_alphanumeric(c));
    }
}

#[test]
fn test_char_width() {
    assert_eq!(char_width('a'), 1);
    assert_eq!(char_width('\u{7f}'), 1);
    assert_eq!(char_width('\u{80}'), 2);
    assert_eq!(char_width('é'), 2);
    assert_eq!(char_width('\u{7ff}'), 2);
    assert_eq!(char_width('\u{800}'), 3);
    assert_eq!(char_width('你'), 3);
    assert_eq!(char_width('\u{ffff}'), 3);
    assert_eq!(char_width('\u{10000}'), 4);
    assert_eq!(char_width('😀'), 4);
    assert_eq!(char_width('\u{10ffff}'), 4);
}

#[test]
fn test_char_width_as_the_standard_library() {
    for code in (0..0x110000u32).step_by(7) {
        if let Some(c) = char::from_u32(code) {
            assert_eq!(char_width(c), c.len_utf8());
        }
    }
}

#[test]
fn test_decode_char() {
    let s = "aé你😀z";
    assert_eq!(decode_char(s, 0), 'a');
    assert_eq!(decode_char(s, 1), 'é');
    assert_eq!(decode_char(s, 3), '你');
    assert_eq!(decode_char(s, 6), '😀');
    assert_eq!(decode_char(s, 10), 'z');
}

#[test]
fn test_substring() {
    let s = "héllo, мир!";
    assert_eq!(substring(s, 0, 6), "héllo");
    assert_eq!(substring(s, 8, 14), "мир");
    assert_eq!(substring(s, 0, s.len()), s);
    assert_eq!(substring(s, 3, 3), "");
    assert_eq!(substring(s, s.len(), s.len()), "");
}

#[test]
fn test_str_eq() {
    assert!(str_eq("", ""));
    assert!(str_eq("c", "c"));
    assert!(str_eq("fôte", "fôte"));
    assert!(!str_eq("c", ""));
    assert!(!str_eq("", "c"));
    assert!(!str_eq("c", "C"));
    assert!(!str_eq("c", "cc"));
    assert!(!str_eq("fôte", "fote"));
    assert!(!str_eq("abc", "abd"));
}

#[test]
fn test_str_lt() {
    assert!(str_lt("", "a"));
    assert!(str_lt("a", "b"));
    assert!(str_lt("a", "ab"));
    assert!(str_lt("ab", "b"));
    assert!(str_lt("B", "a"));
    assert!(str_lt("z", "é"));
    assert!(str_lt("～", "𐌰"));
    assert!(!str_lt("", ""));
    assert!(!str_lt("a", "a"));
    assert!(!str_lt("b", "a"));
    assert!(!str_lt("ab", "a"));
    assert!(!str_lt("é", "z"));
}

#[test]
fn test_str_lt_as_the_standard_library() {
    let words = ["", "a", "ab", "abc", "b", "B", "é", "e", "z", "～", "𐌰", "10", "9", "-"];
    for a in words {
        for b in words {
            assert_eq!(str_lt(a, b), a < b);
            assert_eq!(str_eq(a, b), a == b);
        }
    }
}
