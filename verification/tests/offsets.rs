use ime_core::clause::{
    char_utf8_width, clause_byte_range, cursor_byte_offset, ATTR_TARGET_CONVERTED,
    ATTR_TARGET_NOTCONVERTED,
};
use ime_core::utf16::{decode_lossy, decode_strict, REPLACEMENT_CHARACTER};

#[test]
fn targeted_kana_run() {
    // "ありがとう" is five kana, three UTF-8 bytes each (15 bytes in all);
    // the attributes mark units 3..=6, truncated to the five reconciled
    // units, so the run starts at the fourth kana and reaches the end.
    let text = String::from("ありがとう");
    assert_eq!(text.len(), 15);
    let attrs: Vec<u8> = vec![0, 0, 0, 1, 1, 1, 1];
    let (start, end) = clause_byte_range(&text, &attrs).unwrap();
    assert_eq!((start, end), (9, 15));
    assert_eq!(&text[start..end], "とう");
}

#[test]
fn targeted_run_with_explicit_end() {
    // Mixed widths: 'a' is one byte, 'い' three; the run covers only 'い'.
    let text = String::from("aいa");
    let attrs: Vec<u8> = vec![0, ATTR_TARGET_CONVERTED, 0];
    let (start, end) = clause_byte_range(&text, &attrs).unwrap();
    assert_eq!((start, end), (1, 4));
    // The bytes between the offsets are exactly the targeted characters.
    assert_eq!(&text[start..end], "い");
}

#[test]
fn not_yet_converted_units_are_targeted() {
    let text = String::from("abc");
    let attrs: Vec<u8> = vec![ATTR_TARGET_NOTCONVERTED, 0, 0];
    assert_eq!(clause_byte_range(&text, &attrs), Some((0, 1)));
}

#[test]
fn only_first_run_counts() {
    // A second targeted run after the first one has ended is ignored.
    let text = String::from("abcde");
    let attrs: Vec<u8> = vec![0, 1, 0, 1, 1];
    assert_eq!(clause_byte_range(&text, &attrs), Some((1, 2)));
}

#[test]
fn run_reaching_end_of_attrs_ends_at_byte_length() {
    let text = String::from("abあ");
    let attrs: Vec<u8> = vec![0, 1, 1];
    assert_eq!(clause_byte_range(&text, &attrs), Some((1, 5)));
}

#[test]
fn attrs_shorter_than_text_still_end_at_byte_length() {
    // The walk stops at the shorter sequence, but an unended run closes at
    // the byte length of the whole text.
    let text = String::from("あいう");
    let attrs: Vec<u8> = vec![1];
    assert_eq!(clause_byte_range(&text, &attrs), Some((0, 9)));
}

#[test]
fn untargeted_attrs_give_no_range() {
    let text = String::from("あい");
    let attrs: Vec<u8> = vec![0, 0];
    assert_eq!(clause_byte_range(&text, &attrs), None);
}

#[test]
fn empty_attrs_give_no_range() {
    let text = String::from("abc");
    let attrs: Vec<u8> = Vec::new();
    assert_eq!(clause_byte_range(&text, &attrs), None);
}

#[test]
fn unlisted_attribute_values_are_untargeted() {
    // 0 (input), 2 (converted), 4 (error), 5 (fixed) do not target.
    let text = String::from("abcd");
    let attrs: Vec<u8> = vec![0, 2, 4, 5];
    assert_eq!(clause_byte_range(&text, &attrs), None);
}

#[test]
fn cursor_sums_utf8_widths() {
    let text = String::from("あい");
    assert_eq!(cursor_byte_offset(&text, 0), Some(0));
    assert_eq!(cursor_byte_offset(&text, 1), Some(3));
    assert_eq!(cursor_byte_offset(&text, 2), Some(6));
}

#[test]
fn cursor_past_end_is_full_length() {
    let text = String::from("あい");
    assert_eq!(cursor_byte_offset(&text, 10), Some(6));
}

#[test]
fn negative_cursor_is_absent() {
    let text = String::from("abc");
    assert_eq!(cursor_byte_offset(&text, -1), None);
}

#[test]
fn widths_cover_all_encoding_lengths() {
    assert_eq!(char_utf8_width('a'), 1);
    assert_eq!(char_utf8_width('\u{00E9}'), 2);
    assert_eq!(char_utf8_width('\u{3042}'), 3);
    assert_eq!(char_utf8_width('\u{1F600}'), 4);
}

#[test]
fn strict_decodes_surrogate_pair() {
    let units: Vec<u16> = vec![0x61, 0xD83D, 0xDE00];
    assert_eq!(decode_strict(&units), Some(String::from("a\u{1F600}")));
}

#[test]
fn strict_rejects_lone_surrogate() {
    let units: Vec<u16> = vec![0x61, 0xD800];
    assert_eq!(decode_strict(&units), None);
    let units: Vec<u16> = vec![0xDC00, 0x61];
    assert_eq!(decode_strict(&units), None);
}

#[test]
fn lossy_replaces_lone_surrogates() {
    let units: Vec<u16> = vec![0x61, 0xD800, 0x62];
    let expected: String = vec!['a', REPLACEMENT_CHARACTER, 'b'].into_iter().collect();
    assert_eq!(decode_lossy(&units), expected);
}

#[test]
fn lossy_keeps_wellformed_text() {
    let units: Vec<u16> = vec![0x3042, 0x308A];
    assert_eq!(decode_lossy(&units), String::from("あり"));
}

#[test]
fn empty_units_decode_to_empty_text() {
    let units: Vec<u16> = Vec::new();
    assert_eq!(decode_strict(&units), Some(String::new()));
    assert_eq!(decode_lossy(&units), String::new());
}
