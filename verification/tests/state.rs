use codex_agent::state::ParseState;

fn state(items: &[&str], open_message: bool) -> ParseState {
    ParseState { open_items: items.iter().map(|s| s.to_string()).collect(), open_message }
}

fn back(s: &ParseState) -> (Vec<String>, bool) {
    let t = ParseState::decode(&s.encode());
    (t.open_items, t.open_message)
}

#[test]
fn empty_state_is_three_bytes() {
    assert_eq!(state(&[], false).encode(), vec![0, 0, 0]);
    assert_eq!(state(&[], true).encode(), vec![0, 0, 1]);
}

#[test]
fn entries_are_written_with_their_lengths() {
    assert_eq!(
        state(&["ab", "\u{e9}"], true).encode(),
        vec![2, 0, 2, 0, b'a', b'b', 2, 0, 0xc3, 0xa9, 1]
    );
}

#[test]
fn large_numbers_have_the_lower_byte_first() {
    let long = "x".repeat(0x0203);
    let bytes = state(&[&long], false).encode();
    assert_eq!(bytes[..4], [1, 0, 3, 2]);
    assert_eq!(bytes.len(), 2 + 2 + 0x0203 + 1);
}

#[test]
fn decoding_undoes_encoding() {
    let s = state(&["item_0", "", "\u{1f600}", "item_0"], true);
    assert_eq!(back(&s), (s.open_items, true));
}

#[test]
fn short_bytes_mean_nothing_open() {
    for b in [&[][..], &[7][..], &[0, 0][..]] {
        let s = ParseState::decode(b);
        assert!(s.open_items.is_empty());
        assert!(!s.open_message);
    }
}

#[test]
fn any_other_flag_byte_is_set() {
    assert!(ParseState::decode(&[0, 0, 2]).open_message);
    assert!(ParseState::decode(&[0, 0, 255, 0]).open_message);
}

#[test]
fn cut_off_length_stops_the_reading() {
    let s = ParseState::decode(&[2, 0, 1, 0, b'a', 9]);
    assert_eq!(s.open_items, vec!["a"]);
    assert!(s.open_message);
}

#[test]
fn cut_off_entry_stops_the_reading() {
    let s = ParseState::decode(&[1, 0, 5, 0, b'a', b'b']);
    assert!(s.open_items.is_empty());
    assert!(s.open_message);
    let t = ParseState::decode(&[1, 0, 5, 0]);
    assert!(t.open_items.is_empty());
    assert!(!t.open_message);
}

#[test]
fn invalid_text_is_passed_over() {
    let s = ParseState::decode(&[2, 0, 1, 0, 0xff, 1, 0, b'b', 1]);
    assert_eq!(s.open_items, vec!["b"]);
    assert!(s.open_message);
}

#[test]
fn too_long_entry_is_cut() {
    let long = "a".repeat(0x10005);
    let (items, flag) = back(&state(&[&long, "b"], true));
    assert_eq!(items, vec!["a".repeat(0xFFFF), "b".to_string()]);
    assert!(flag);
}

#[test]
fn entry_cut_within_a_character_is_lost() {
    let long = "\u{e9}".repeat(0x8000);
    let (items, flag) = back(&state(&[&long, "b"], true));
    assert_eq!(items, vec!["b"]);
    assert!(flag);
}

#[test]
fn entries_beyond_the_count_are_left_out() {
    let s = ParseState { open_items: vec!["x".to_string(); 0x10001], open_message: true };
    let (items, flag) = back(&s);
    assert_eq!(items.len(), 0xFFFF);
    assert!(flag);
}

#[test]
fn items_are_opened_once() {
    let mut s = state(&[], false);
    s.insert("a".to_string());
    s.insert("b".to_string());
    s.insert("a".to_string());
    assert_eq!(s.open_items, vec!["a", "b"]);
    assert!(s.contains("a"));
    assert!(!s.contains("A"));
}

#[test]
fn closing_tells_whether_the_item_was_open() {
    let mut s = state(&["a", "b", "c"], true);
    assert!(s.remove("b"));
    assert!(!s.remove("b"));
    assert_eq!(s.open_items, vec!["a", "c"]);
    assert!(s.open_message);
}

#[test]
fn closing_takes_the_first_entry() {
    let mut s = state(&["a", "b", "a"], false);
    assert!(s.remove("a"));
    assert_eq!(s.open_items, vec!["b", "a"]);
}

#[test]
fn closing_undoes_opening() {
    let mut s = state(&["a"], false);
    s.insert("b".to_string());
    assert!(s.remove("b"));
    assert_eq!(s.open_items, vec!["a"]);
}

#[test]
fn decoded_state_is_carried_whole() {
    for b in [
        &[][..],
        &[9, 0, 1, 0, b'a', 0xff, 0xff, 7][..],
        &[3, 0, 1, 0, 0xff, 2, 0, 0xc3, 0xa9, 0, 0, 4, 4][..],
        &[0xff, 0xff, 0, 0, 0, 0][..],
    ] {
        let s = ParseState::decode(b);
        assert_eq!(back(&s), (s.open_items, s.open_message));
    }
}
