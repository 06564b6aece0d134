use ime_core::buffer::{bytes_to_units, read_u16_le, read_u32_le};
use ime_core::candidates::parse_candidate_list;
use ime_core::session::{
    accept_fill, association_action, candidate_placement, classify_size_probe, composed_text,
    composition_text, Association, CandidatePlacement, SizeProbe, CFS_EXCLUDE,
};

fn push_u32(buf: &mut Vec<u8>, v: u32) {
    buf.push((v & 0xFF) as u8);
    buf.push(((v >> 8) & 0xFF) as u8);
    buf.push(((v >> 16) & 0xFF) as u8);
    buf.push(((v >> 24) & 0xFF) as u8);
}

fn push_u16(buf: &mut Vec<u8>, v: u16) {
    buf.push((v & 0xFF) as u8);
    buf.push((v >> 8) as u8);
}

/// A candidate-list record with the given offset-table entries and the
/// null-terminated strings that normally follow them.
fn candidate_record(offsets: &[u32], strings: &[&str]) -> Vec<u8> {
    let mut buf = Vec::new();
    push_u32(&mut buf, 0); // size (ignored)
    push_u32(&mut buf, 0); // style
    push_u32(&mut buf, offsets.len() as u32); // count
    push_u32(&mut buf, 0); // selection
    push_u32(&mut buf, 0); // page start
    push_u32(&mut buf, 0); // page size
    for off in offsets {
        push_u32(&mut buf, *off);
    }
    for s in strings {
        for u in s.encode_utf16() {
            push_u16(&mut buf, u);
        }
        push_u16(&mut buf, 0);
    }
    buf
}

#[test]
fn three_candidates_in_order() {
    // Strings start right after the 24-byte header and three offsets.
    let buf = candidate_record(&[36, 40, 44], &["一", "二", "三"]);
    assert_eq!(buf.len(), 48);
    let list = parse_candidate_list(&buf).unwrap();
    assert_eq!(list, vec!["一", "二", "三"]);
}

#[test]
fn record_order_is_preserved() {
    // The offsets name the strings in record order, not in storage order:
    // with two candidates stored at 32 and 36, swapped offsets swap the list.
    let buf = candidate_record(&[36, 32], &["一", "二"]);
    let list = parse_candidate_list(&buf).unwrap();
    assert_eq!(list, vec!["二", "一"]);
}

#[test]
fn offset_past_buffer_rejects_record() {
    let buf = candidate_record(&[36, 1000, 44], &["一", "二", "三"]);
    assert_eq!(parse_candidate_list(&buf), None);
}

#[test]
fn count_past_buffer_rejects_record() {
    let mut buf = candidate_record(&[36, 40, 44], &["一", "二", "三"]);
    buf[8] = 0xFF;
    buf[9] = 0xFF;
    assert_eq!(parse_candidate_list(&buf), None);
}

#[test]
fn missing_terminator_rejects_record() {
    // One candidate whose units run to the end of the buffer without a null.
    let mut buf = Vec::new();
    push_u32(&mut buf, 0);
    push_u32(&mut buf, 0);
    push_u32(&mut buf, 1);
    push_u32(&mut buf, 0);
    push_u32(&mut buf, 0);
    push_u32(&mut buf, 0);
    push_u32(&mut buf, 28);
    push_u16(&mut buf, 0x4E00);
    push_u16(&mut buf, 0x4E8C);
    assert_eq!(parse_candidate_list(&buf), None);
}

#[test]
fn short_buffer_rejects_record() {
    let buf: Vec<u8> = vec![0; 10];
    assert_eq!(parse_candidate_list(&buf), None);
}

#[test]
fn ill_formed_candidate_is_substituted_not_dropped() {
    let mut buf = Vec::new();
    push_u32(&mut buf, 0);
    push_u32(&mut buf, 0);
    push_u32(&mut buf, 2);
    push_u32(&mut buf, 0);
    push_u32(&mut buf, 0);
    push_u32(&mut buf, 0);
    push_u32(&mut buf, 32); // lone high surrogate, then null
    push_u32(&mut buf, 36); // "あ"
    push_u16(&mut buf, 0xD800);
    push_u16(&mut buf, 0);
    push_u16(&mut buf, 0x3042);
    push_u16(&mut buf, 0);
    let list = parse_candidate_list(&buf).unwrap();
    assert_eq!(list, vec!["\u{FFFD}", "あ"]);
}

#[test]
fn probe_classification() {
    assert_eq!(classify_size_probe(-1), SizeProbe::Failed);
    assert_eq!(classify_size_probe(0), SizeProbe::Empty);
    assert_eq!(classify_size_probe(30), SizeProbe::Fill(30));
}

#[test]
fn failed_fill_is_rejected() {
    assert_eq!(accept_fill(-2, vec![1, 2, 3]), None);
}

#[test]
fn fill_keeps_only_reported_bytes() {
    assert_eq!(accept_fill(2, vec![1, 2, 3]), Some(vec![1, 2]));
    assert_eq!(accept_fill(0, vec![1, 2, 3]), Some(Vec::new()));
}

#[test]
fn composition_bytes_decode_as_utf16() {
    // "あり" as little-endian UTF-16 bytes.
    let data: Vec<u8> = vec![0x42, 0x30, 0x8A, 0x30];
    assert_eq!(composition_text(&data), Some(String::from("あり")));
}

#[test]
fn odd_byte_count_is_misaligned() {
    let data: Vec<u8> = vec![0x42, 0x30, 0x8A];
    assert_eq!(composition_text(&data), None);
    assert_eq!(bytes_to_units(&data), None);
}

#[test]
fn ill_formed_composition_is_absent() {
    // A lone surrogate: strict decoding invalidates the whole string.
    let data: Vec<u8> = vec![0x00, 0xD8];
    assert_eq!(composition_text(&data), None);
}

#[test]
fn empty_probe_means_no_composed_text() {
    // A zero-size probe hands an empty buffer on: the committed result is
    // absent, not an empty string.
    assert_eq!(classify_size_probe(0), SizeProbe::Empty);
    let data: Vec<u8> = Vec::new();
    assert_eq!(composed_text(&data), None);
    assert_eq!(composition_text(&data), Some(String::new()));
}

#[test]
fn composed_text_present_when_nonempty() {
    let data: Vec<u8> = vec![0x42, 0x30];
    assert_eq!(composed_text(&data), Some(String::from("あ")));
}

#[test]
fn no_ime_support_means_no_platform_action() {
    assert_eq!(association_action(false, true), None);
    assert_eq!(association_action(false, false), None);
    assert_eq!(candidate_placement(false, 10, 20), None);
}

#[test]
fn association_follows_allowed_flag() {
    assert_eq!(association_action(true, true), Some(Association::SystemDefault));
    assert_eq!(association_action(true, false), Some(Association::DisabledChildren));
}

#[test]
fn placement_excludes_the_given_point() {
    let p = candidate_placement(true, 7, -3).unwrap();
    assert_eq!(p, CandidatePlacement { index: 0, style: CFS_EXCLUDE, x: 7, y: -3 });
    assert_eq!(CFS_EXCLUDE, 128);
}

#[test]
fn little_endian_reads() {
    let buf: Vec<u8> = vec![0x34, 0x12, 0x78, 0x56];
    assert_eq!(read_u16_le(&buf, 0), 0x1234);
    assert_eq!(read_u16_le(&buf, 2), 0x5678);
    assert_eq!(read_u32_le(&buf, 0), 0x56781234);
}

#[test]
fn bytes_regroup_into_units() {
    let bytes: Vec<u8> = vec![0x42, 0x30, 0x00, 0x4E];
    assert_eq!(bytes_to_units(&bytes), Some(vec![0x3042, 0x4E00]));
}
