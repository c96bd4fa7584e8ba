use char_fns::{byte_index, starts_code_point, CharFns};

const MIXED: &str = "🤗🐋🐠ñXwow₮";
const SETS: &str = "he∅⊆⊇o";

#[test]
fn test_len() {
    assert!("".char_len() == 0);
    assert!("hello".char_len() == 5);
    assert!("😁😀".char_len() == 2);
}

#[test]
fn test_split() {
    assert!("".char_split(0) == ("", ""));
    assert!("hello".char_split(2) == ("he", "llo"));
    assert!("🤗🐋🐠ñXwow₮".char_split(5) == ("🤗🐋🐠ñX", "wow₮"));
}

#[test]
fn test_replace_empty() {
    assert!("".char_replace(0, 0, "") == "");
    assert!("".char_replace(0, 0, "₢₸") == "₢₸");
}

#[test]
fn test_replace_delete_only() {
    assert!("he∅⊆⊇o".char_replace(0, 3, "") == "⊆⊇o");
    assert!("he∅⊆⊇o".char_replace(2, 2, "") == "he⊇o");
    assert!("he∅⊆⊇o".char_replace(4, 2, "") == "he∅⊆");
}

#[test]
fn test_replace_insert_only() {
    assert!("🤗🐋🐠ñXwow₮".char_replace(0, 0, "⊆⊇o") == "⊆⊇o🤗🐋🐠ñXwow₮");
    assert!("🤗🐋🐠ñXwow₮".char_replace(1, 0, "⊆⊇o") == "🤗⊆⊇o🐋🐠ñXwow₮");
    assert!("🤗🐋🐠ñXwow₮".char_replace(9, 0, "⊆⊇o") == "🤗🐋🐠ñXwow₮⊆⊇o");
}

#[test]
fn test_replace_delete_and_insert() {
    assert!("🤗🐋🐠ñXwow₮".char_replace(0, 2, "⊆⊇o") == "⊆⊇o🐠ñXwow₮");
    assert!("🤗🐋🐠ñXwow₮".char_replace(4, 4, "⊆⊇o") == "🤗🐋🐠ñ⊆⊇o₮");
    assert!("🤗🐋🐠ñXwow₮".char_replace(1, 8, "⊆⊇o") == "🤗⊆⊇o");
}

#[test]
fn start_bytes_are_all_but_continuation_bytes() {
    assert!(starts_code_point(0x00));
    assert!(starts_code_point(0x41));
    assert!(starts_code_point(0x7F));
    assert!(!starts_code_point(0x80));
    assert!(!starts_code_point(0xA5));
    assert!(!starts_code_point(0xBF));
    assert!(starts_code_point(0xC0));
    assert!(starts_code_point(0xE2));
    assert!(starts_code_point(0xF0));
    assert!(starts_code_point(0xFF));
    for b in 0u8..=255 {
        assert_eq!(starts_code_point(b), b < 0x80 || b >= 0xC0);
    }
}

#[test]
fn byte_index_of_empty_text_is_zero() {
    assert_eq!(byte_index("", 0), 0);
    assert_eq!(byte_index("", 1), 0);
    assert_eq!(byte_index("", usize::MAX), 0);
}

#[test]
fn byte_index_of_offset_zero_is_zero() {
    assert_eq!(byte_index("hello", 0), 0);
    assert_eq!(byte_index(MIXED, 0), 0);
    assert_eq!(byte_index(SETS, 0), 0);
}

#[test]
fn byte_index_in_ascii_is_the_offset() {
    assert_eq!(byte_index("hello", 1), 1);
    assert_eq!(byte_index("hello", 2), 2);
    assert_eq!(byte_index("hello", 4), 4);
    assert_eq!(byte_index("hello", 5), 5);
}

#[test]
fn byte_index_steps_over_whole_characters() {
    assert_eq!(MIXED.len(), 21);
    assert_eq!(byte_index(MIXED, 1), 4);
    assert_eq!(byte_index(MIXED, 2), 8);
    assert_eq!(byte_index(MIXED, 3), 12);
    assert_eq!(byte_index(MIXED, 4), 14);
    assert_eq!(byte_index(MIXED, 5), 15);
    assert_eq!(byte_index(MIXED, 6), 16);
    assert_eq!(byte_index(MIXED, 8), 18);
    assert_eq!(byte_index(MIXED, 9), 21);
    assert_eq!(byte_index(SETS, 2), 2);
    assert_eq!(byte_index(SETS, 3), 5);
    assert_eq!(byte_index(SETS, 5), 11);
    assert_eq!(byte_index(SETS, 6), 12);
}

#[test]
fn byte_index_past_the_end_is_the_byte_length() {
    assert_eq!(byte_index("hello", 6), 5);
    assert_eq!(byte_index("hello", 1000), 5);
    assert_eq!(byte_index(MIXED, 10), 21);
    assert_eq!(byte_index(MIXED, usize::MAX), 21);
}

#[test]
fn byte_index_lies_on_a_boundary() {
    for text in ["", "hello", MIXED, SETS, "😁😀", "ñ", "a₮b"] {
        let n = text.char_len();
        for index in 0..=n + 2 {
            let offset = byte_index(text, index);
            assert!(text.is_char_boundary(offset));
            assert_eq!(text[..offset].chars().count(), index.min(n));
        }
        assert_eq!(byte_index(text, n), text.len());
    }
}

#[test]
fn char_len_counts_scalar_values() {
    assert_eq!("ñ".char_len(), 1);
    assert_eq!("₮".char_len(), 1);
    assert_eq!("🤗".char_len(), 1);
    assert_eq!(MIXED.char_len(), 9);
    assert_eq!(SETS.char_len(), 6);
    for text in ["", "hello", MIXED, SETS, "😁😀"] {
        assert_eq!(text.char_len(), text.chars().count());
        let starts = text.bytes().filter(|b| starts_code_point(*b)).count();
        assert_eq!(text.char_len(), starts);
    }
}

#[test]
fn char_len_of_ascii_is_the_byte_length() {
    for text in ["", "a", "hello", "The quick brown fox", "\n\t\0~"] {
        assert!(text.is_ascii());
        assert_eq!(text.char_len(), text.len());
    }
}

#[test]
fn split_parts_rejoin_to_the_text() {
    for text in ["", "hello", MIXED, SETS, "😁😀"] {
        for index in 0..14 {
            let (before, after) = text.char_split(index);
            assert_eq!(format!("{}{}", before, after), text);
            assert_eq!(before.len() + after.len(), text.len());
            assert_eq!(before.char_len(), index.min(text.char_len()));
        }
    }
}

#[test]
fn split_at_zero_has_empty_prefix() {
    assert_eq!("hello".char_split(0), ("", "hello"));
    assert_eq!(MIXED.char_split(0), ("", MIXED));
    assert_eq!("".char_split(0), ("", ""));
}

#[test]
fn split_at_or_past_the_end_has_empty_suffix() {
    assert_eq!("hello".char_split(5), ("hello", ""));
    assert_eq!("hello".char_split(6), ("hello", ""));
    assert_eq!(MIXED.char_split(9), (MIXED, ""));
    assert_eq!(MIXED.char_split(usize::MAX), (MIXED, ""));
    assert_eq!("".char_split(3), ("", ""));
}

#[test]
fn split_inside_multibyte_text() {
    assert_eq!("😁😀".char_split(1), ("😁", "😀"));
    assert_eq!(SETS.char_split(3), ("he∅", "⊆⊇o"));
    assert_eq!(MIXED.char_split(4), ("🤗🐋🐠ñ", "Xwow₮"));
}

#[test]
fn replace_of_nothing_by_nothing_changes_nothing() {
    for text in ["", "hello", MIXED, SETS] {
        for index in 0..14 {
            assert_eq!(text.char_replace(index, 0, ""), text);
        }
    }
}

#[test]
fn replace_into_empty_text() {
    assert_eq!("".char_replace(0, 0, ""), "");
    assert_eq!("".char_replace(0, 0, "xy"), "xy");
    assert_eq!("".char_replace(4, 7, "xy"), "xy");
}

#[test]
fn replace_clamps_the_removed_range() {
    assert_eq!("hello".char_replace(3, 100, ""), "hel");
    assert_eq!("hello".char_replace(3, usize::MAX, "p!"), "help!");
    assert_eq!("hello".char_replace(7, 2, "XY"), "helloXY");
    assert_eq!(SETS.char_replace(5, 9, "∅"), "he∅⊆⊇∅");
    assert_eq!(MIXED.char_replace(usize::MAX, usize::MAX, "."), "🤗🐋🐠ñXwow₮.");
}

#[test]
fn replace_copies_the_new_text_as_it_is() {
    assert_eq!("hello".char_replace(1, 3, "€€"), "h€€o");
    assert_eq!("hello".char_replace(0, 5, MIXED), MIXED);
    assert_eq!(SETS.char_replace(2, 3, "ABC"), "heABCo");
}

#[test]
fn replace_keeps_first_character_and_new_text() {
    let out = MIXED.char_replace(1, 8, "⊆⊇o");
    assert_eq!(out, "🤗⊆⊇o");
    assert_eq!(out.char_len(), 4);
}
