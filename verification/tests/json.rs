use codex_agent::json::{
    json_int, json_object_raw, json_str, json_str_or_empty, parse_json_string,
};

#[test]
fn string_field_is_read() {
    assert_eq!(json_str(r#"{"type":"item.started"}"#, "type").as_deref(), Some("item.started"));
    assert_eq!(json_str("{\"a\" \t: \n \"b\"}", "a").as_deref(), Some("b"));
    assert_eq!(json_str(r#"{"a":""}"#, "a").as_deref(), Some(""));
}

#[test]
fn missing_or_other_field_is_no_string() {
    assert_eq!(json_str(r#"{"a":"b"}"#, "c"), None);
    assert_eq!(json_str(r#"{"a":1}"#, "a"), None);
    assert_eq!(json_str(r#"{"a""#, "a"), None);
    assert_eq!(json_str(r#"{"a":"#, "a"), None);
    assert_eq!(json_str(r#"{"a":"open"#, "a"), None);
    assert_eq!(json_str("", "a"), None);
    assert_eq!(json_str_or_empty(r#"{"a":1}"#, "a"), "");
}

#[test]
fn first_quoted_name_counts() {
    assert_eq!(json_str(r#"{"b":"a","x":"c"}"#, "a").as_deref(), Some("c"));
    assert_eq!(json_str(r#"{"b":"a","x":1,"a":"c"}"#, "a").as_deref(), None);
    assert_eq!(json_str(r#"{"x":{"a":"in"},"a":"out"}"#, "a").as_deref(), Some("in"));
}

#[test]
fn escapes_are_resolved() {
    assert_eq!(parse_json_string(r#"a\nb\tc\rd" tail"#).as_deref(), Some("a\nb\tc\rd"));
    assert_eq!(parse_json_string(r#"\"\\\/""#).as_deref(), Some("\"\\/"));
    assert_eq!(parse_json_string(r#"\u0041""#).as_deref(), Some("u0041"));
    assert_eq!(parse_json_string("\u{e9}\"").as_deref(), Some("\u{e9}"));
    assert_eq!(parse_json_string("\"").as_deref(), Some(""));
}

#[test]
fn open_string_is_rejected() {
    assert_eq!(parse_json_string(""), None);
    assert_eq!(parse_json_string("abc"), None);
    assert_eq!(parse_json_string("abc\\"), None);
    assert_eq!(parse_json_string("abc\\\""), None);
}

#[test]
fn written_string_is_read_back() {
    let value = "line one\n\t\"quoted\" \\ \r\u{1f600}";
    let escaped = value
        .replace('\\', "\\\\")
        .replace('"', "\\\"")
        .replace('\n', "\\n")
        .replace('\t', "\\t")
        .replace('\r', "\\r");
    let line = format!("{{\"id\": 7, \"text\" : \"{}\", \"more\":1}}", escaped);
    assert_eq!(json_str(&line, "text").as_deref(), Some(value));
}

#[test]
fn integer_field_is_read() {
    assert_eq!(json_int(r#"{"exit_code":0}"#, "exit_code"), Some(0));
    assert_eq!(json_int(r#"{"exit_code": -12 }"#, "exit_code"), Some(-12));
    assert_eq!(json_int(r#"{"exit_code":127,"a":1}"#, "exit_code"), Some(127));
    assert_eq!(json_int(r#"{"n":007}"#, "n"), Some(7));
}

#[test]
fn integer_agrees_with_std() {
    for s in [
        "", "-", "--1", "1-", "-0", "9223372036854775807", "9223372036854775808",
        "-9223372036854775808", "-9223372036854775809", "000000000000000000000000000000000001",
        "99999999999999999999999999999999999999999999999999",
        "-99999999999999999999999999999999999999999999999999", "1-2", "42",
    ] {
        let line = format!("{{\"n\":{}}}", s);
        assert_eq!(json_int(&line, "n"), s.parse::<i64>().ok(), "{:?}", s);
    }
}

#[test]
fn integer_of_other_values_is_none() {
    assert_eq!(json_int(r#"{"n":null}"#, "n"), None);
    assert_eq!(json_int(r#"{"n":"5"}"#, "n"), None);
    assert_eq!(json_int(r#"{"n":+5}"#, "n"), None);
    assert_eq!(json_int(r#"{"m":5}"#, "n"), None);
    assert_eq!(json_int(r#"{"n":1.5}"#, "n"), Some(1));
}

#[test]
fn written_integer_is_read_back() {
    for n in [i64::MIN, -1, 0, 9, 10, 4096, i64::MAX] {
        assert_eq!(json_int(&format!("{{\"n\": {}}}", n), "n"), Some(n));
    }
}

#[test]
fn object_field_runs_to_its_closing_brace() {
    assert_eq!(
        json_object_raw(r#"{"item":{"a":{"b":1},"c":2},"d":3}"#, "item").as_deref(),
        Some(r#"{"a":{"b":1},"c":2}"#)
    );
    assert_eq!(json_object_raw(r#"{"item": {}}"#, "item").as_deref(), Some("{}"));
}

#[test]
fn object_field_counts_braces_in_strings() {
    assert_eq!(
        json_object_raw(r#"{"item":{"a":"}"},"b":1}"#, "item").as_deref(),
        Some(r#"{"a":"}"#)
    );
}

#[test]
fn missing_or_open_object_is_none() {
    assert_eq!(json_object_raw(r#"{"item":{"a":1"#, "item"), None);
    assert_eq!(json_object_raw(r#"{"item":[1]}"#, "item"), None);
    assert_eq!(json_object_raw(r#"{"item":"#, "item"), None);
    assert_eq!(json_object_raw(r#"{"other":{}}"#, "item"), None);
}
