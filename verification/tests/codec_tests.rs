use wallrustler::codec::{decode_state, encode_state};
use wallrustler::wallpapers::Wallpaper;

fn wp(name: &str, count: usize) -> Wallpaper {
    Wallpaper { file_name: String::from(name), count }
}

fn names_and_counts(ws: &[Wallpaper]) -> Vec<(String, usize)> {
    ws.iter().map(|w| (w.file_name.clone(), w.count)).collect()
}

#[test]
fn encode_produces_exact_bytes() {
    let ws = vec![wp("ab", 3)];
    let bytes = encode_state(&ws);
    let mut expected: Vec<u8> = Vec::new();
    expected.extend_from_slice(&[1, 0, 0, 0, 0, 0, 0, 0]); // one entry
    expected.extend_from_slice(&[2, 0, 0, 0, 0, 0, 0, 0]); // name is two bytes
    expected.extend_from_slice(b"ab");
    expected.extend_from_slice(&[3, 0, 0, 0, 0, 0, 0, 0]); // shown three times
    assert_eq!(bytes, expected);
}

#[test]
fn round_trip_plain_collection() {
    let ws = vec![wp("a.png", 1), wp("b.jpg", 0), wp("c.gif", 17)];
    let bytes = encode_state(&ws);
    let back = decode_state(&bytes).expect("well-formed state must decode");
    assert_eq!(names_and_counts(&back), names_and_counts(&ws));
}

#[test]
fn round_trip_empty_collection() {
    let ws: Vec<Wallpaper> = Vec::new();
    let bytes = encode_state(&ws);
    assert_eq!(bytes, vec![0, 0, 0, 0, 0, 0, 0, 0]);
    let back = decode_state(&bytes).expect("empty state must decode");
    assert!(back.is_empty());
}

#[test]
fn round_trip_multibyte_names() {
    let ws = vec![wp("\u{e9}t\u{e9}.png", 2), wp("\u{5bff}.jpg", 4)];
    let bytes = encode_state(&ws);
    let back = decode_state(&bytes).expect("multibyte names must decode");
    assert_eq!(names_and_counts(&back), names_and_counts(&ws));
}

#[test]
fn selection_scenario_persists() {
    // Fresh directory scan of {a.png, b.jpg}, one selection of a.png, saved
    // and loaded again.
    let mut ws = vec![wp("a.png", 0), wp("b.jpg", 0)];
    ws[0].count += 1;
    let bytes = encode_state(&ws);
    let back = decode_state(&bytes).expect("state must decode");
    assert_eq!(names_and_counts(&back), vec![
        (String::from("a.png"), 1),
        (String::from("b.jpg"), 0),
    ]);
}

#[test]
fn decode_rejects_empty_input() {
    assert!(decode_state(&[]).is_none());
}

#[test]
fn decode_rejects_truncated_header() {
    assert!(decode_state(&[1, 0, 0]).is_none());
}

#[test]
fn decode_rejects_truncated_entry() {
    let ws = vec![wp("abc.png", 1)];
    let mut bytes = encode_state(&ws);
    bytes.pop();
    assert!(decode_state(&bytes).is_none());
}

#[test]
fn decode_rejects_trailing_garbage() {
    let ws = vec![wp("abc.png", 1)];
    let mut bytes = encode_state(&ws);
    bytes.push(0);
    assert!(decode_state(&bytes).is_none());
}

#[test]
fn decode_rejects_invalid_utf8_name() {
    let mut bytes: Vec<u8> = Vec::new();
    bytes.extend_from_slice(&[1, 0, 0, 0, 0, 0, 0, 0]);
    bytes.extend_from_slice(&[2, 0, 0, 0, 0, 0, 0, 0]);
    bytes.extend_from_slice(&[0xff, 0xfe]); // not UTF-8
    bytes.extend_from_slice(&[0, 0, 0, 0, 0, 0, 0, 0]);
    assert!(decode_state(&bytes).is_none());
}

#[test]
fn decode_rejects_duplicate_names() {
    let ws = vec![wp("same.png", 1), wp("same.png", 2)];
    let bytes = encode_state(&ws);
    assert!(decode_state(&bytes).is_none());
}

#[test]
fn decode_rejects_wrong_entry_count() {
    let ws = vec![wp("a.png", 1)];
    let mut bytes = encode_state(&ws);
    bytes[0] = 2; // claims two entries but holds one
    assert!(decode_state(&bytes).is_none());
}
