use hydra::order::canonical;
use hydra::text::{
    chars_of, decimal_of, glue, is_before, join, listed, same, text_of, trim, trim_end,
};

#[test]
fn white_space_is_that_of_the_standard_library() {
    for code in 0..=0x10ffff_u32 {
        if let Some(c) = char::from_u32(code) {
            let alone = c.to_string();
            assert_eq!(trim(&alone), alone.trim(), "{code:x}");
        }
    }
}

#[test]
fn trimming_stops_at_what_is_not_white() {
    for text in ["", " ", " a ", "\n a\u{a0}b \t", "a", "\u{2003}é\u{85}"] {
        assert_eq!(trim(text), text.trim());
        assert_eq!(trim_end(text), text.trim_end());
    }
}

#[test]
fn texts_are_ordered_as_strings_are() {
    let texts = ["", "a", "a-", "a-2", "aa", "b", "é", "日本", "日", "\u{10000}", "\u{ffff}"];
    for a in texts {
        for b in texts {
            assert_eq!(is_before(a, b), a < b, "{a:?} {b:?}");
            assert_eq!(same(a, b), a == b);
        }
    }
}

#[test]
fn numbers_are_written_in_decimal() {
    for n in [0, 1, 9, 10, 11, 99, 100, 1234567890, u64::MAX] {
        assert_eq!(decimal_of(n), n.to_string());
    }
}

#[test]
fn parts_are_put_together() {
    let list: Vec<String> = ["a", "b", "c"].iter().map(|t| t.to_string()).collect();
    assert_eq!(join(&list, ", "), "a, b, c");
    assert_eq!(join(&vec!["a".to_string()], ", "), "a");
    assert_eq!(join(&vec![], ", "), "");
    assert_eq!(glue(&vec!["a", "", "b"]), "ab");
    assert!(listed(&list, "b"));
    assert!(!listed(&list, "d"));
    assert_eq!(text_of(&chars_of("日本語"), 1, 3), "本語");
}

#[test]
fn a_canonical_list_is_sorted_and_has_no_repetitions() {
    let list: Vec<String> = ["m", "b", "m", "a"].iter().map(|t| t.to_string()).collect();
    assert_eq!(canonical(list), vec!["a", "b", "m"]);
}
