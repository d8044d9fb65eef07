use quake_alert::text::{
    begins_with, chars_of, code_point, comes_before, contains_text, control, decimal, decimal_wide,
    holds, join, same, text_of, trim, utf16_len, white,
};

fn chars(s: &str) -> Vec<char> {
    s.chars().collect()
}

fn strings(list: &[&str]) -> Vec<String> {
    list.iter().map(|s| s.to_string()).collect()
}

#[test]
fn every_character_is_classed_as_unicode_does() {
    for c in '\0'..=char::MAX {
        assert_eq!(white(c), c.is_whitespace(), "{c:?}");
        assert_eq!(control(c), c.is_control(), "{c:?}");
        assert_eq!(code_point(c), u32::from(c));
    }
}

#[test]
fn numbers_are_written_in_decimal() {
    for n in [0, 7, 10, 99, 100, 1_234_567_890, u64::MAX] {
        assert_eq!(decimal(n), n.to_string());
    }
    assert_eq!(decimal_wide(u128::MAX), u128::MAX.to_string());
}

#[test]
fn white_space_is_trimmed_on_both_sides() {
    for s in ["", " ", "a", " a", "a\u{3000}", "\t\n a b \u{a0}", "\u{200b}a"] {
        assert_eq!(trim(s), s.trim());
        assert_eq!(trim(&trim(s)), trim(s));
    }
}

#[test]
fn characters_and_texts_go_back_and_forth() {
    let text = "震度5弱📍";
    assert_eq!(chars_of(text), chars(text));
    assert_eq!(text_of(&chars(text)), text);
    assert!(same(text, "震度5弱📍"));
    assert!(!same(text, "震度5弱"));
}

#[test]
fn utf16_units_count_pairs_twice() {
    for s in ["", "abc", "震度", "📍a", "𠮷野家"] {
        assert_eq!(utf16_len(s), s.encode_utf16().count() as u128);
    }
}

#[test]
fn lists_are_joined_and_searched() {
    let list = strings(&["東京", "大阪", ""]);
    assert_eq!(join(&list, "・"), list.join("・"));
    assert_eq!(join(&[], "・"), "");
    assert!(holds(&list, "大阪"));
    assert!(holds(&list, ""));
    assert!(!holds(&list, "京"));
}

#[test]
fn texts_are_found_in_texts() {
    for hay in ["", "a", "abcab", "東京千代田区"] {
        for needle in ["", "a", "ab", "ca", "abcabc", "千代田"] {
            assert_eq!(contains_text(&chars(hay), &chars(needle)), hay.contains(needle));
            assert_eq!(begins_with(&chars(hay), &chars(needle)), hay.starts_with(needle));
        }
    }
}

#[test]
fn texts_are_ordered_by_their_characters() {
    let list = ["", "A", "AB", "a", "あ", "甲", "甲乙", "\u{ffff}", "📍"];
    for a in list {
        for b in list {
            assert_eq!(comes_before(a, b), a < b, "{a:?} {b:?}");
        }
    }
}
