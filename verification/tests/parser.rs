use codex_agent::event::AgentEvent;
use codex_agent::parser::{
    agent_parse_line, can_read_line, parse_agent_message, parse_codex_line,
};
use codex_agent::state::ParseState;

fn closed() -> ParseState {
    ParseState { open_items: vec![], open_message: false }
}

fn strings(items: &[&str]) -> Vec<String> {
    items.iter().map(|s| s.to_string()).collect()
}

fn opened(id: &str, tool: &str, category: &str, raw_cmd: &str, paths: &[&str]) -> AgentEvent {
    AgentEvent::NewEntry {
        vendor_id: id.to_string(),
        tool: tool.to_string(),
        category: category.to_string(),
        raw_cmd: raw_cmd.to_string(),
        file_paths: strings(paths),
    }
}

fn ended(id: &str, exit_code: i32, lines: &[&str]) -> AgentEvent {
    AgentEvent::CloseEntry {
        vendor_id: id.to_string(),
        exit_code,
        output_lines: strings(lines),
    }
}

fn added(text: &str) -> AgentEvent {
    AgentEvent::AppendToEntry { vendor_id: "codex-message".to_string(), text: text.to_string() }
}

const START: &str =
    r#"{"type":"item.started","item":{"id":"item_1","type":"command_execution","command":"bash -lc 'ls src/lib.rs'"}}"#;
const END: &str =
    r#"{"type":"item.completed","item":{"id":"item_1","type":"command_execution","command":"bash -lc 'ls src/lib.rs'","aggregated_output":"a\n\nb\r\n","exit_code":2}}"#;

#[test]
fn started_command_opens_an_entry() {
    let mut ps = closed();
    assert_eq!(
        parse_codex_line(START, &mut ps),
        vec![opened("item_1", "Read ls", "read", "bash -lc 'ls src/lib.rs'", &["src/lib.rs"])]
    );
    assert_eq!(ps.open_items, vec!["item_1"]);
}

#[test]
fn completion_closes_the_entry() {
    let mut ps = closed();
    parse_codex_line(START, &mut ps);
    assert_eq!(parse_codex_line(END, &mut ps), vec![ended("item_1", 2, &["a", "b"])]);
    assert!(ps.open_items.is_empty());
}

#[test]
fn completion_without_start_opens_and_closes_at_once() {
    let mut ps = closed();
    assert_eq!(
        parse_codex_line(END, &mut ps),
        vec![
            opened("item_1", "Read ls", "read", "bash -lc 'ls src/lib.rs'", &["src/lib.rs"]),
            ended("item_1", 2, &["a", "b"]),
        ]
    );
    assert!(ps.open_items.is_empty());
}

#[test]
fn exit_code_is_cut_to_its_width() {
    let line = |code: &str| {
        format!(
            r#"{{"type":"item.completed","item":{{"id":"i","type":"command_execution","exit_code":{}}}}}"#,
            code
        )
    };
    for (code, expected) in [
        ("null", 0),
        ("-1", -1),
        ("4294967297", 1),
        ("2147483648", i32::MIN),
        ("99999999999999999999", 0),
    ] {
        let mut ps = closed();
        ps.insert("i".to_string());
        assert_eq!(parse_codex_line(&line(code), &mut ps), vec![ended("i", expected, &[])]);
    }
}

#[test]
fn other_started_items_are_dropped() {
    for line in [
        r#"{"type":"item.started","item":{"id":"a","type":"reasoning"}}"#,
        r#"{"type":"item.started","item":{"type":"command_execution","command":"ls"}}"#,
        r#"{"type":"item.started","item":{"id":"","type":"command_execution"}}"#,
        r#"{"type":"item.started"}"#,
    ] {
        let mut ps = closed();
        assert!(parse_codex_line(line, &mut ps).is_empty());
        assert!(ps.open_items.is_empty());
    }
}

#[test]
fn other_completed_items_are_dropped() {
    for line in [
        r#"{"type":"item.completed","item":{"id":"a","type":"reasoning"}}"#,
        r#"{"type":"item.completed","item":{"type":"error","message":"x"}}"#,
        r#"{"type":"item.completed","item":{"id":"a"}}"#,
        r#"{"type":"item.completed"}"#,
    ] {
        let mut ps = closed();
        assert!(parse_codex_line(line, &mut ps).is_empty());
    }
}

#[test]
fn lines_of_other_types_are_dropped() {
    for line in [r#"{"type":"turn.started"}"#, r#"{"kind":"x"}"#, "not json", r#"{"type":3}"#] {
        let mut ps = ParseState { open_items: strings(&["a"]), open_message: true };
        assert!(parse_codex_line(line, &mut ps).is_empty());
        assert_eq!(ps.open_items, vec!["a"]);
        assert!(ps.open_message);
    }
}

#[test]
fn call_and_output_of_a_tool() {
    let mut ps = closed();
    assert_eq!(
        parse_codex_line(
            r#"{"type":"item.completed","item":{"id":"c1","type":"function_call","name":"read_file","arguments":"{\"path\":\"a/b.rs\"}"}}"#,
            &mut ps
        ),
        vec![opened("c1", "Read b.rs", "read", "read_file a/b.rs", &["a/b.rs"])]
    );
    assert_eq!(ps.open_items, vec!["c1"]);
    assert_eq!(
        parse_codex_line(
            r#"{"type":"item.completed","item":{"id":"o1","type":"function_call_output","call_id":"c1","output":"x\ny"}}"#,
            &mut ps
        ),
        vec![ended("c1", 0, &["x", "y"])]
    );
    assert!(ps.open_items.is_empty());
}

#[test]
fn output_without_call_id_goes_by_its_own_id() {
    let mut ps = closed();
    ps.insert("c1".to_string());
    assert_eq!(
        parse_codex_line(
            r#"{"type":"item.completed","item":{"id":"c1","type":"function_call_output"}}"#,
            &mut ps
        ),
        vec![ended("c1", 0, &[])]
    );
}

#[test]
fn output_of_an_unseen_call_is_dropped() {
    let mut ps = closed();
    ps.insert("c2".to_string());
    assert!(parse_codex_line(
        r#"{"type":"item.completed","item":{"id":"o1","type":"function_call_output","call_id":"c1","output":"x"}}"#,
        &mut ps
    )
    .is_empty());
    assert_eq!(ps.open_items, vec!["c2"]);
}

#[test]
fn nameless_tool_call() {
    let mut ps = closed();
    assert_eq!(
        parse_codex_line(
            r#"{"type":"item.completed","item":{"id":"c1","type":"function_call"}}"#,
            &mut ps
        ),
        vec![opened("c1", "Tool", "tool", "", &[])]
    );
}

#[test]
fn error_is_opened_and_closed_at_once() {
    let mut ps = closed();
    assert_eq!(
        parse_codex_line(
            r#"{"type":"item.completed","item":{"id":"7","type":"error","message":"it broke"}}"#,
            &mut ps
        ),
        vec![opened("err:7", "Error: it broke", "error", "it broke", &[]), ended("err:7", 1, &[])]
    );
    assert_eq!(
        parse_codex_line(r#"{"type":"item.completed","item":{"id":"8","type":"error"}}"#, &mut ps),
        vec![
            opened("err:8", "Error: unknown error", "error", "unknown error", &[]),
            ended("err:8", 1, &[]),
        ]
    );
    assert!(ps.open_items.is_empty());
}

#[test]
fn error_label_shows_sixty_bytes() {
    let error = |m: &str| {
        format!(r#"{{"type":"item.completed","item":{{"id":"7","type":"error","message":"{}"}}}}"#, m)
    };
    let ascii = "m".repeat(75);
    let wide = "\u{e9}".repeat(40);
    for (message, shown) in [(&ascii, "m".repeat(60)), (&wide, "\u{e9}".repeat(30))] {
        let line = error(message);
        assert!(can_read_line(line.as_bytes()));
        let mut ps = closed();
        assert_eq!(
            parse_codex_line(&line, &mut ps)[0],
            opened("err:7", &format!("Error: {}", shown), "error", message, &[])
        );
    }
}

#[test]
fn error_with_a_character_across_the_cut_is_not_readable() {
    let error = |m: &str, kind: &str, id: &str| {
        format!(
            r#"{{"type":"item.completed","item":{{"id":"{}","type":"{}","message":"{}"}}}}"#,
            id, kind, m
        )
    };
    let across = format!("{}\u{e9}tail", "m".repeat(59));
    assert!(!can_read_line(error(&across, "error", "7").as_bytes()));
    assert!(can_read_line(error(&across, "agent_message", "7").as_bytes()));
    assert!(can_read_line(error(&across, "error", "").as_bytes()));
    assert!(can_read_line(error(&format!("{}\u{e9}", "m".repeat(58)), "error", "7").as_bytes()));
    assert!(can_read_line(b"\xff"));
    assert!(can_read_line(b"   "));
    assert!(can_read_line(START.as_bytes()));
}

#[test]
fn messages_share_one_entry_until_the_turn_ends() {
    let say = |t: &str| {
        format!(r#"{{"type":"item.completed","item":{{"id":"m","type":"agent_message","text":"{}"}}}}"#, t)
    };
    let mut ps = closed();
    assert_eq!(
        parse_codex_line(&say(" hello "), &mut ps),
        vec![opened("codex-message", "hello", "message", "", &[])]
    );
    assert!(ps.open_message);
    assert_eq!(parse_codex_line(&say("more"), &mut ps), vec![added("more")]);
    assert_eq!(
        parse_codex_line(r#"{"type":"turn.completed","usage":{}}"#, &mut ps),
        vec![AgentEvent::SessionEnded { success: true }]
    );
    assert!(!ps.open_message);
    assert_eq!(
        parse_codex_line(&say("again"), &mut ps),
        vec![opened("codex-message", "again", "message", "", &[])]
    );
}

#[test]
fn message_text_is_looked_up_in_order() {
    let mut ps = ParseState { open_items: vec![], open_message: true };
    assert_eq!(
        parse_agent_message(r#"{"message":"c","text":"b","content":"a"}"#, &mut ps),
        vec![added("a")]
    );
    assert_eq!(parse_agent_message(r#"{"message":"c","text":"b"}"#, &mut ps), vec![added("b")]);
    assert_eq!(parse_agent_message(r#"{"message":"c"}"#, &mut ps), vec![added("c")]);
}

#[test]
fn empty_message_is_dropped() {
    let mut ps = closed();
    assert!(parse_agent_message(r#"{"content":" \n ","text":"b"}"#, &mut ps).is_empty());
    assert!(parse_agent_message("{}", &mut ps).is_empty());
    assert!(!ps.open_message);
}

#[test]
fn session_id_is_reported() {
    let mut ps = closed();
    assert_eq!(
        parse_codex_line(r#"{"type":"thread.started","thread_id":"t-1"}"#, &mut ps),
        vec![AgentEvent::SessionIDAvailable("t-1".to_string())]
    );
    assert!(parse_codex_line(r#"{"type":"thread.started"}"#, &mut ps).is_empty());
}

#[test]
fn blank_and_invalid_lines_leave_the_bytes() {
    for line in [&b""[..], b" \t\n", b"\xff\xfe", b"\xc3", "\u{3000}".as_bytes()] {
        let (state, events) = agent_parse_line(line, &[9, 9, 9]);
        assert_eq!(state, vec![9, 9, 9]);
        assert!(events.is_empty());
    }
}

#[test]
fn dropped_line_rewrites_the_bytes() {
    let (state, events) = agent_parse_line(b"{}", &[]);
    assert_eq!(state, vec![0, 0, 0]);
    assert!(events.is_empty());
}

#[test]
fn state_is_carried_as_bytes() {
    let (state, events) = agent_parse_line(format!("  {}\n", START).as_bytes(), &[]);
    assert_eq!(state, [&[1, 0, 6, 0][..], b"item_1", &[0]].concat());
    assert_eq!(events.len(), 1);
    let (state, events) = agent_parse_line(END.as_bytes(), &state);
    assert_eq!(state, vec![0, 0, 0]);
    assert_eq!(events, vec![ended("item_1", 2, &["a", "b"])]);
}

#[test]
fn bytes_and_kept_state_give_the_same_events() {
    let say = r#"{"type":"item.completed","item":{"id":"m","type":"agent_message","text":"x"}}"#;
    let turn = r#"{"type":"turn.completed"}"#;
    let mut ps = closed();
    let mut bytes: Vec<u8> = vec![];
    for line in [START, say, START, say, "", END, END, turn, say] {
        let (next, events) = agent_parse_line(line.as_bytes(), &bytes);
        bytes = next;
        if !line.is_empty() {
            assert_eq!(events, parse_codex_line(line, &mut ps));
        }
        let kept = ParseState::decode(&bytes);
        assert_eq!(kept.open_items, ps.open_items);
        assert_eq!(kept.open_message, ps.open_message);
    }
}

#[test]
fn repeated_start_is_shown_again_and_kept_once() {
    let mut ps = closed();
    parse_codex_line(START, &mut ps);
    assert_eq!(parse_codex_line(START, &mut ps).len(), 1);
    assert_eq!(ps.open_items, vec!["item_1"]);
}

#[test]
fn open_items_follow_the_events() {
    let mut ps = closed();
    parse_codex_line(START, &mut ps);
    assert!(ps.contains("item_1"));
    let other = r#"{"type":"item.completed","item":{"id":"c","type":"function_call","name":"t"}}"#;
    parse_codex_line(other, &mut ps);
    assert_eq!(ps.open_items, vec!["item_1", "c"]);
    parse_codex_line(END, &mut ps);
    assert_eq!(ps.open_items, vec!["c"]);
}

#[test]
fn error_entry_is_no_open_item() {
    let mut ps = closed();
    ps.insert("err:5".to_string());
    let line = r#"{"type":"item.completed","item":{"id":"5","type":"error","message":"m"}}"#;
    assert_eq!(parse_codex_line(line, &mut ps)[1], ended("err:5", 1, &[]));
    assert_eq!(ps.open_items, vec!["err:5"]);
}

#[test]
fn appending_needs_an_open_message() {
    let item = r#"{"text":"x"}"#;
    let mut ps = closed();
    assert!(matches!(parse_agent_message(item, &mut ps)[0], AgentEvent::NewEntry { .. }));
    assert!(matches!(parse_agent_message(item, &mut ps)[0], AgentEvent::AppendToEntry { .. }));
}
