use codex_agent::text::{
    at_most, behind_last, chars_of, filled_lines_of, find_text, joined_by_space, parts_of,
    place_of, same_text, string_of, trimmed, trimmed_start, whitespace, words_of, CharClass,
};

const SAMPLES: [&str; 14] = [
    "",
    " ",
    "a",
    "  a b  ",
    "a\nb\r\nc\r\r\n\r\nd\r",
    "\n\n",
    "foo\nbar\n\r\nbaz\r",
    "one\ttwo\u{a0}three\u{3000}four\u{85}",
    "_a__b_",
    "src/lib.rs",
    "/usr/",
    "ünï_cödé \u{1f600} x",
    "{{\"a\": 1}}",
    "\u{200b}zero width\u{feff}",
];

#[test]
fn whitespace_agrees_with_std() {
    for n in 0..=0x10FFFFu32 {
        if let Some(c) = char::from_u32(n) {
            assert_eq!(whitespace(c), c.is_whitespace(), "{:x}", n);
        }
    }
}

#[test]
fn words_agree_with_split_whitespace() {
    for s in SAMPLES {
        let expected: Vec<String> = s.split_whitespace().map(|w| w.to_string()).collect();
        assert_eq!(words_of(&chars_of(s)), expected, "{:?}", s);
    }
}

#[test]
fn filled_lines_agree_with_lines() {
    for s in SAMPLES {
        let expected: Vec<String> =
            s.lines().filter(|l| !l.is_empty()).map(|l| l.to_string()).collect();
        assert_eq!(filled_lines_of(&chars_of(s)), expected, "{:?}", s);
    }
    assert_eq!(
        filled_lines_of(&chars_of("foo\nbar\n\r\nbaz\r")),
        vec!["foo", "bar", "baz\r"]
    );
}

#[test]
fn trimming_agrees_with_std() {
    for s in SAMPLES {
        let chars = chars_of(s);
        assert_eq!(string_of(trimmed(&chars, CharClass::White)), s.trim());
        assert_eq!(string_of(trimmed_start(&chars, CharClass::White)), s.trim_start());
        assert_eq!(
            string_of(trimmed(&chars, CharClass::Brace)),
            s.trim_matches(|c| c == '{' || c == '}')
        );
    }
}

#[test]
fn splitting_agrees_with_std() {
    for s in SAMPLES {
        let chars = chars_of(s);
        let expected: Vec<String> = s.split('_').map(|w| w.to_string()).collect();
        assert_eq!(parts_of(&chars, '_'), expected, "{:?}", s);
        assert_eq!(string_of(behind_last(&chars, '/')), s.rsplit('/').next().unwrap());
        assert_eq!(string_of(behind_last(&chars, '.')), s.rsplit('.').next().unwrap());
    }
}

#[test]
fn joining_undoes_splitting() {
    for s in SAMPLES {
        assert_eq!(joined_by_space(&parts_of(&chars_of(s), ' ')), s);
    }
}

#[test]
fn searching_finds_the_first() {
    let s = chars_of("ab\u{e9}cabc");
    assert_eq!(find_text(&s, &chars_of("abc")), Some(4));
    assert_eq!(find_text(&s, &chars_of("c")), Some(3));
    assert_eq!(find_text(&s, &chars_of("abd")), None);
    assert_eq!(find_text(&s, &[]), Some(0));
    assert_eq!(find_text(&[], &[]), Some(0));
    assert_eq!(find_text(&[], &['a']), None);
    assert_eq!(place_of(&s, 'c'), Some(3));
    assert_eq!(place_of(&s, 'z'), None);
}

#[test]
fn text_is_compared_whole() {
    assert!(same_text("git", "git"));
    assert!(same_text("", ""));
    assert!(!same_text("git", "gi"));
    assert!(!same_text("git", "gIt"));
    assert!(!same_text("\u{e9}", "e\u{301}"));
}

#[test]
fn the_first_characters_are_taken() {
    let s = chars_of("\u{e9}\u{e8}x");
    assert_eq!(string_of(at_most(&s, 2)), "\u{e9}\u{e8}");
    assert_eq!(string_of(at_most(&s, 3)), "\u{e9}\u{e8}x");
    assert_eq!(string_of(at_most(&s, 9)), "\u{e9}\u{e8}x");
}
