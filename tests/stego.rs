use homoglyph_tools::stego::{hide_message, replacement, unhide, HomoglyphTable};
use std::collections::HashMap;

const A_CYR: u8 = 0xe0;
const A_LAT: u8 = 0x61;

#[test]
fn single_carrier_empty_message() {
    let t = HomoglyphTable::new();
    let out = hide_message(&t, &[A_CYR], b"");
    assert_eq!(out, vec![A_CYR]);
    assert_eq!(unhide(&t, &[A_CYR]), Vec::<u8>::new());
}

#[test]
fn two_carriers_empty_message() {
    let t = HomoglyphTable::new();
    let out = hide_message(&t, &[A_CYR, A_CYR], b"");
    assert_eq!(out, vec![A_CYR, A_CYR]);
}

#[test]
fn empty_message_turns_first_carrier_cyrillic() {
    let t = HomoglyphTable::new();
    let out = hide_message(&t, &[0x20, A_LAT, 0x20, 0x4f], b"");
    assert_eq!(out, vec![0x20, A_CYR, 0x20, 0xce]);
}

#[test]
fn container_without_carriers_is_unchanged() {
    let t = HomoglyphTable::new();
    let cont = b"zz 123 !".to_vec();
    assert_eq!(hide_message(&t, &cont, b"hi"), cont);
}

#[test]
fn text_without_carriers_decodes_empty() {
    let t = HomoglyphTable::new();
    assert_eq!(unhide(&t, b"zz 123 !"), Vec::<u8>::new());
    assert_eq!(unhide(&t, b""), Vec::<u8>::new());
}

#[test]
fn message_bits_go_most_significant_first() {
    let t = HomoglyphTable::new();
    let cont = vec![A_CYR; 17];
    let out = hide_message(&t, &cont, &[0x80]);
    let mut expected = vec![A_CYR; 17];
    expected[0] = A_LAT;
    assert_eq!(out, expected);
}

#[test]
fn short_container_truncates_message() {
    let t = HomoglyphTable::new();
    // 'A' is 0100_0001: only the first four bits fit.
    let out = hide_message(&t, &[A_CYR, 0x20, A_CYR, A_CYR, A_CYR], b"A");
    assert_eq!(out, vec![A_CYR, 0x20, A_LAT, A_CYR, A_CYR]);
}

#[test]
fn round_trip_with_mixed_container() {
    let t = HomoglyphTable::new();
    let mut cont = Vec::new();
    for i in 0..60 {
        cont.push(if i % 2 == 0 { A_LAT } else { 0xd2 });
        cont.push(b' ');
    }
    let msg = b"Hi!";
    let out = hide_message(&t, &cont, msg);
    assert_eq!(out.len(), cont.len());
    assert_ne!(out, cont);
    assert_eq!(unhide(&t, &out), msg.to_vec());
}

#[test]
fn decode_without_terminator_keeps_whole_bytes() {
    let t = HomoglyphTable::new();
    // 0100_0001 then four more bits: only 'A' is a whole byte.
    let bits = [0, 1, 0, 0, 0, 0, 0, 1, 1, 0, 1, 0];
    let text: Vec<u8> = bits.iter().map(|b| if *b == 1 { A_LAT } else { A_CYR }).collect();
    assert_eq!(unhide(&t, &text), b"A".to_vec());
}

#[test]
fn decode_stops_at_terminator() {
    let t = HomoglyphTable::new();
    let mut text = Vec::new();
    for b in [0x41u8, 0x00, 0x42] {
        for k in 0..8 {
            text.push(if (b >> (7 - k)) & 1 == 1 { 0x54 } else { 0xd2 });
        }
    }
    assert_eq!(unhide(&t, &text), b"A".to_vec());
}

#[test]
fn replacement_looks_up_map() {
    let m: HashMap<u8, u8> = HashMap::from([(0xe0, 0x61)]);
    assert_eq!(replacement(&m, 0xe0), Some(0x61));
    assert_eq!(replacement(&m, 0x61), None);
}
