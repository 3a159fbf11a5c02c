//! Reads the output of `codex exec --json`, one JSON object per line, into
//! events.
use crate::command::{
    call_label, call_text, classify_function_call, codex_classify, codex_file_paths, command_label,
    command_paths, extract_cmd_from_args,
};
use crate::event::{no_events, one_event, two_events, AgentEvent, EventView};
use crate::json::{
    int_field, json_int, json_object_raw, json_str, json_str_or_empty, object_field, str_field,
    str_field_or_empty,
};
use crate::outside::str_from_utf8;
use crate::state::{decode_state, encode_state, ParseState, StateView};
use crate::text::{
    chars_of, filled_lines, filled_lines_of, joined, same_text, string_of, trim, trimmed, CharClass,
};
use vstd::prelude::*;
use vstd::slice::slice_to_vec;
use vstd::utf8::{decode_utf8, encode_utf8, is_char_boundary, valid_utf8};

verus! {

/// The state after a line, and the events that the line gives.
pub type Step = (StateView, Seq<EventView>);

/// The most bytes of an error message that its label shows.
pub const LABEL_BYTES: usize = 60;

/// The entry for a shell command.
pub open spec fn command_entry(id: Seq<char>, cmd: Seq<char>) -> EventView {
    EventView::NewEntry {
        vendor_id: id,
        tool: command_label(cmd).0,
        category: command_label(cmd).1,
        raw_cmd: cmd,
        file_paths: command_paths(cmd),
    }
}

/// The entry for a tool call.
pub open spec fn call_entry(id: Seq<char>, name: Seq<char>, args: Seq<char>) -> EventView {
    EventView::NewEntry {
        vendor_id: id,
        tool: call_label(name, args).0,
        category: call_label(name, args).1,
        raw_cmd: call_text(args, name),
        file_paths: call_label(name, args).2,
    }
}

/// The exit code of a command: the lower 32 bits of the number, and zero where
/// there is none.
pub open spec fn exit_code(item: Seq<char>) -> i32 {
    match int_field(item, "exit_code"@) {
        Some(n) => n as i32,
        None => 0,
    }
}

/// The end of the entry for a shell command.
pub open spec fn command_end(id: Seq<char>, item: Seq<char>) -> EventView {
    EventView::CloseEntry {
        vendor_id: id,
        exit_code: exit_code(item),
        output_lines: filled_lines(str_field_or_empty(item, "aggregated_output"@)),
    }
}

/// An item has been started. Only a shell command with an id is shown.
pub open spec fn item_started(item: Seq<char>, s: StateView) -> Step {
    let id = str_field_or_empty(item, "id"@);
    if str_field_or_empty(item, "type"@) != "command_execution"@ || id.len() == 0 {
        (s, seq![])
    } else {
        (s.insert(id), seq![command_entry(id, str_field_or_empty(item, "command"@))])
    }
}

/// A shell command has ended. Where its start was seen its entry is closed; else
/// an entry is opened and closed at once.
pub open spec fn command_completed(id: Seq<char>, item: Seq<char>, s: StateView) -> Step {
    let end = command_end(id, item);
    if s.contains(id) {
        (s.remove(id), seq![end])
    } else {
        (s, seq![command_entry(id, str_field_or_empty(item, "command"@)), end])
    }
}

/// The name of the tool that an item calls.
pub open spec fn call_name(item: Seq<char>) -> Seq<char> {
    match str_field(item, "name"@) {
        Some(name) => name,
        None => "tool"@,
    }
}

/// A tool has been called.
pub open spec fn function_called(id: Seq<char>, item: Seq<char>, s: StateView) -> Step {
    let args = str_field_or_empty(item, "arguments"@);
    (s.insert(id), seq![call_entry(id, call_name(item), args)])
}

/// The id of the call that an item gives the output of.
pub open spec fn output_id(id: Seq<char>, item: Seq<char>) -> Seq<char> {
    match str_field(item, "call_id"@) {
        Some(call_id) => call_id,
        None => id,
    }
}

/// A tool has returned. Where its call was seen its entry is closed.
pub open spec fn function_returned(id: Seq<char>, item: Seq<char>, s: StateView) -> Step {
    let call_id = output_id(id, item);
    if s.contains(call_id) {
        (
            s.remove(call_id),
            seq![
                EventView::CloseEntry {
                    vendor_id: call_id,
                    exit_code: 0,
                    output_lines: filled_lines(str_field_or_empty(item, "output"@)),
                },
            ],
        )
    } else {
        (s, seq![])
    }
}

/// The text of a message, without white space around it.
pub open spec fn message_text(item: Seq<char>) -> Seq<char> {
    let text = match str_field(item, "content"@) {
        Some(text) => text,
        None => match str_field(item, "text"@) {
            Some(text) => text,
            None => str_field_or_empty(item, "message"@),
        },
    };
    trim(text, CharClass::White)
}

/// The agent has said something. The first message of a turn opens an entry, and
/// the later ones are appended to it; an empty one is dropped.
pub open spec fn message_said(item: Seq<char>, s: StateView) -> Step {
    let text = message_text(item);
    if text.len() == 0 {
        (s, seq![])
    } else if !s.open_message {
        (
            s.with_message(true),
            seq![
                EventView::NewEntry {
                    vendor_id: "codex-message"@,
                    tool: text,
                    category: "message"@,
                    raw_cmd: seq![],
                    file_paths: seq![],
                },
            ],
        )
    } else {
        (s, seq![EventView::AppendToEntry { vendor_id: "codex-message"@, text }])
    }
}

/// The message of an error.
pub open spec fn error_text(item: Seq<char>) -> Seq<char> {
    match str_field(item, "message"@) {
        Some(text) => text,
        None => "unknown error"@,
    }
}

/// The number of bytes of an error message that its label shows.
pub open spec fn label_bytes(text: Seq<char>) -> int {
    if encode_utf8(text).len() < LABEL_BYTES {
        encode_utf8(text).len() as int
    } else {
        LABEL_BYTES as int
    }
}

/// Whether the label of an error message ends between two characters of it.
pub open spec fn can_be_cut(text: Seq<char>) -> bool {
    is_char_boundary(encode_utf8(text), label_bytes(text))
}

/// The part of an error message that its label shows.
pub open spec fn label_part(text: Seq<char>) -> Seq<char> {
    decode_utf8(encode_utf8(text).take(label_bytes(text)))
}

/// An error is shown as an entry that is opened and closed at once.
pub open spec fn error_events(id: Seq<char>, item: Seq<char>) -> Seq<EventView> {
    let text = error_text(item);
    seq![
        EventView::NewEntry {
            vendor_id: "err:"@ + id,
            tool: "Error: "@ + label_part(text),
            category: "error"@,
            raw_cmd: text,
            file_paths: seq![],
        },
        EventView::CloseEntry { vendor_id: "err:"@ + id, exit_code: 1, output_lines: seq![] },
    ]
}

/// An item has been completed. Without an id, and of an unknown type, it is
/// dropped.
pub open spec fn item_completed(item: Seq<char>, s: StateView) -> Step {
    let id = str_field_or_empty(item, "id"@);
    let kind = str_field_or_empty(item, "type"@);
    if id.len() == 0 {
        (s, seq![])
    } else if kind == "command_execution"@ {
        command_completed(id, item, s)
    } else if kind == "function_call"@ {
        function_called(id, item, s)
    } else if kind == "function_call_output"@ {
        function_returned(id, item, s)
    } else if kind == "agent_message"@ {
        message_said(item, s)
    } else if kind == "error"@ {
        (s, error_events(id, item))
    } else {
        (s, seq![])
    }
}

/// What a line does to the state, and the events that it gives. A line of an
/// unknown type, and one whose item is missing, is dropped.
pub open spec fn read_line(line: Seq<char>, s: StateView) -> Step {
    let item = object_field(line, "item"@);
    match str_field(line, "type"@) {
        Some(kind) => if kind == "item.started"@ {
            match item {
                Some(item) => item_started(item, s),
                None => (s, seq![]),
            }
        } else if kind == "item.completed"@ {
            match item {
                Some(item) => item_completed(item, s),
                None => (s, seq![]),
            }
        } else if kind == "turn.completed"@ {
            (s.with_message(false), seq![EventView::SessionEnded { success: true }])
        } else if kind == "thread.started"@ {
            match str_field(line, "thread_id"@) {
                Some(id) => (s, seq![EventView::SessionIDAvailable(id)]),
                None => (s, seq![]),
            }
        } else {
            (s, seq![])
        },
        None => (s, seq![]),
    }
}

/// Whether the item is an error whose message can not be cut for its label.
pub open spec fn is_uncut_error(item: Seq<char>) -> bool {
    &&& str_field_or_empty(item, "id"@).len() > 0
    &&& str_field_or_empty(item, "type"@) == "error"@
    &&& !can_be_cut(error_text(item))
}

/// Whether the line can be read: it is not an error whose message has a
/// character across the place where its label ends.
pub open spec fn is_readable(line: Seq<char>) -> bool {
    str_field(line, "type"@) == Some("item.completed"@) ==> match object_field(line, "item"@) {
        Some(item) => !is_uncut_error(item),
        None => true,
    }
}

/// The text of a line, without white space around it.
pub open spec fn line_text(line: Seq<u8>) -> Seq<char> {
    trim(decode_utf8(line), CharClass::White)
}

/// Whether the line holds nothing to read: it is not valid UTF-8, or it is
/// empty but for white space.
pub open spec fn is_blank(line: Seq<u8>) -> bool {
    !valid_utf8(line) || line_text(line).len() == 0
}

/// Whether the line, as bytes, can be read.
pub open spec fn is_readable_line(line: Seq<u8>) -> bool {
    !is_blank(line) ==> is_readable(line_text(line))
}

/// What a line does to the bytes of the state, and the events that it gives. A
/// line with nothing to read leaves the bytes as they are.
pub open spec fn parse_line(line: Seq<u8>, state: Seq<u8>) -> (Seq<u8>, Seq<EventView>) {
    if is_blank(line) {
        (state, seq![])
    } else {
        let step = read_line(line_text(line), decode_state(state));
        (encode_state(step.0), step.1)
    }
}

/// The lines of a text that are not empty.
fn output_lines(text: &str) -> (out: Vec<String>)
    ensures
        out.deep_view() == filled_lines(text@),
{
    let chars: Vec<char> = chars_of(text);
    filled_lines_of(chars.as_slice())
}

/// A text without white space around it.
fn trimmed_text(text: &str) -> (out: String)
    ensures
        out@ == trim(text@, CharClass::White),
{
    let chars: Vec<char> = chars_of(text);
    string_of(trimmed(chars.as_slice(), CharClass::White))
}

/// The entry for a shell command.
fn entry_for_command(id: String, cmd: String) -> (out: AgentEvent)
    ensures
        out.deep_view() == command_entry(id@, cmd@),
{
    let (tool, category): (String, String) = codex_classify(cmd.as_str());
    let file_paths: Vec<String> = codex_file_paths(cmd.as_str());
    AgentEvent::NewEntry { vendor_id: id, tool, category, raw_cmd: cmd, file_paths }
}

/// An item has been started.
fn start_item(item: &str, ps: &mut ParseState) -> (out: Vec<AgentEvent>)
    ensures
        final(ps)@ == item_started(item@, old(ps)@).0,
        out.deep_view() == item_started(item@, old(ps)@).1,
{
    let id: String = json_str_or_empty(item, "id");
    let kind: String = json_str_or_empty(item, "type");
    if !same_text(kind.as_str(), "command_execution") || id.as_str().is_empty() {
        return no_events();
    }
    let cmd: String = json_str_or_empty(item, "command");
    ps.insert(id.clone());
    one_event(entry_for_command(id, cmd))
}

/// A shell command has ended.
fn complete_command(id: String, item: &str, ps: &mut ParseState) -> (out: Vec<AgentEvent>)
    ensures
        final(ps)@ == command_completed(id@, item@, old(ps)@).0,
        out.deep_view() == command_completed(id@, item@, old(ps)@).1,
{
    let cmd: String = json_str_or_empty(item, "command");
    let code: i32 = match json_int(item, "exit_code") {
        Some(n) => #[verifier::truncate] (n as i32),
        None => 0,
    };
    let output: String = json_str_or_empty(item, "aggregated_output");
    let lines: Vec<String> = output_lines(output.as_str());
    let was_open: bool = ps.remove(id.as_str());
    let end: AgentEvent = AgentEvent::CloseEntry {
        vendor_id: id.clone(),
        exit_code: code,
        output_lines: lines,
    };
    if was_open {
        one_event(end)
    } else {
        proof {
            old(ps)@.open_items.index_of_first_ensures(id@);
        }
        two_events(entry_for_command(id, cmd), end)
    }
}

/// A tool has been called.
fn call_function(id: String, item: &str, ps: &mut ParseState) -> (out: Vec<AgentEvent>)
    ensures
        final(ps)@ == function_called(id@, item@, old(ps)@).0,
        out.deep_view() == function_called(id@, item@, old(ps)@).1,
{
    let name: String = match json_str(item, "name") {
        Some(name) => name,
        None => "tool".to_owned(),
    };
    let args: String = json_str_or_empty(item, "arguments");
    let (tool, category, file_paths): (String, String, Vec<String>) = classify_function_call(
        name.as_str(),
        args.as_str(),
    );
    let raw_cmd: String = extract_cmd_from_args(args.as_str(), name.as_str());
    ps.insert(id.clone());
    one_event(AgentEvent::NewEntry { vendor_id: id, tool, category, raw_cmd, file_paths })
}

/// A tool has returned.
fn return_function(id: String, item: &str, ps: &mut ParseState) -> (out: Vec<AgentEvent>)
    ensures
        final(ps)@ == function_returned(id@, item@, old(ps)@).0,
        out.deep_view() == function_returned(id@, item@, old(ps)@).1,
{
    let call_id: String = match json_str(item, "call_id") {
        Some(call_id) => call_id,
        None => id,
    };
    proof {
        old(ps)@.open_items.index_of_first_ensures(call_id@);
    }
    if !ps.remove(call_id.as_str()) {
        return no_events();
    }
    let output: String = json_str_or_empty(item, "output");
    let lines: Vec<String> = output_lines(output.as_str());
    one_event(AgentEvent::CloseEntry { vendor_id: call_id, exit_code: 0, output_lines: lines })
}

/// The agent has said something. The first message of a turn opens the entry
/// `codex-message`, and the later ones are appended to it.
pub fn parse_agent_message(item_raw: &str, ps: &mut ParseState) -> (out: Vec<AgentEvent>)
    ensures
        final(ps)@ == message_said(item_raw@, old(ps)@).0,
        out.deep_view() == message_said(item_raw@, old(ps)@).1,
{
    let said: String = match json_str(item_raw, "content") {
        Some(text) => text,
        None => match json_str(item_raw, "text") {
            Some(text) => text,
            None => json_str_or_empty(item_raw, "message"),
        },
    };
    let text: String = trimmed_text(said.as_str());
    if text.as_str().is_empty() {
        return no_events();
    }
    if !ps.open_message {
        ps.open_message = true;
        let none: Vec<String> = Vec::new();
        let empty: String = String::new();
        assert(none.deep_view() =~= seq![]);
        return one_event(
            AgentEvent::NewEntry {
                vendor_id: "codex-message".to_owned(),
                tool: text,
                category: "message".to_owned(),
                raw_cmd: empty,
                file_paths: none,
            },
        );
    }
    one_event(AgentEvent::AppendToEntry { vendor_id: "codex-message".to_owned(), text })
}

/// The message of an error.
fn error_message(item: &str) -> (out: String)
    ensures
        out@ == error_text(item@),
{
    match json_str(item, "message") {
        Some(text) => text,
        None => "unknown error".to_owned(),
    }
}

/// The number of bytes of an error message that its label shows.
fn label_len(text: &str) -> (n: usize)
    ensures
        n == label_bytes(text@),
{
    let len: usize = text.as_bytes().len();
    if len < LABEL_BYTES {
        len
    } else {
        LABEL_BYTES
    }
}

/// An error is shown as an entry that is opened and closed at once.
fn report_error(id: &str, item: &str) -> (out: Vec<AgentEvent>)
    requires
        can_be_cut(error_text(item@)),
    ensures
        out.deep_view() == error_events(id@, item@),
{
    let text: String = error_message(item);
    let shown: (&str, &str) = text.as_str().split_at(label_len(text.as_str()));
    proof {
        vstd::utf8::encode_utf8_decode_utf8(shown.0@);
        assert(shown.0@ == label_part(text@));
    }
    let label: String = joined("Error: ", shown.0);
    let vid: String = joined("err:", id);
    let no_paths: Vec<String> = Vec::new();
    let no_lines: Vec<String> = Vec::new();
    assert(no_paths.deep_view() =~= seq![]);
    assert(no_lines.deep_view() =~= seq![]);
    two_events(
        AgentEvent::NewEntry {
            vendor_id: vid.clone(),
            tool: label,
            category: "error".to_owned(),
            raw_cmd: text,
            file_paths: no_paths,
        },
        AgentEvent::CloseEntry { vendor_id: vid, exit_code: 1, output_lines: no_lines },
    )
}

/// An item has been completed.
fn complete_item(item: &str, ps: &mut ParseState) -> (out: Vec<AgentEvent>)
    requires
        !is_uncut_error(item@),
    ensures
        final(ps)@ == item_completed(item@, old(ps)@).0,
        out.deep_view() == item_completed(item@, old(ps)@).1,
{
    let id: String = json_str_or_empty(item, "id");
    let kind: String = json_str_or_empty(item, "type");
    if id.as_str().is_empty() {
        return no_events();
    }
    if same_text(kind.as_str(), "command_execution") {
        complete_command(id, item, ps)
    } else if same_text(kind.as_str(), "function_call") {
        call_function(id, item, ps)
    } else if same_text(kind.as_str(), "function_call_output") {
        return_function(id, item, ps)
    } else if same_text(kind.as_str(), "agent_message") {
        parse_agent_message(item, ps)
    } else if same_text(kind.as_str(), "error") {
        report_error(id.as_str(), item)
    } else {
        no_events()
    }
}

/// Reads one line of output: the events that it gives, with the state brought up
/// to date.
pub fn parse_codex_line(line: &str, ps: &mut ParseState) -> (out: Vec<AgentEvent>)
    requires
        is_readable(line@),
    ensures
        final(ps)@ == read_line(line@, old(ps)@).0,
        out.deep_view() == read_line(line@, old(ps)@).1,
{
    let kind: String = match json_str(line, "type") {
        Some(kind) => kind,
        None => {
            return no_events();
        },
    };
    if same_text(kind.as_str(), "item.started") {
        match json_object_raw(line, "item") {
            Some(item) => start_item(item.as_str(), ps),
            None => no_events(),
        }
    } else if same_text(kind.as_str(), "item.completed") {
        match json_object_raw(line, "item") {
            Some(item) => complete_item(item.as_str(), ps),
            None => no_events(),
        }
    } else if same_text(kind.as_str(), "turn.completed") {
        ps.open_message = false;
        one_event(AgentEvent::SessionEnded { success: true })
    } else if same_text(kind.as_str(), "thread.started") {
        match json_str(line, "thread_id") {
            Some(id) => one_event(AgentEvent::SessionIDAvailable(id)),
            None => no_events(),
        }
    } else {
        no_events()
    }
}

/// Tells whether a line can be read.
pub fn can_read_line(line: &[u8]) -> (b: bool)
    ensures
        b == is_readable_line(line@),
{
    let text: String = match str_from_utf8(line) {
        Some(text) => trimmed_text(text),
        None => {
            return true;
        },
    };
    if text.as_str().is_empty() {
        return true;
    }
    match json_str(text.as_str(), "type") {
        Some(kind) => if !same_text(kind.as_str(), "item.completed") {
            return true;
        },
        None => {
            return true;
        },
    }
    match json_object_raw(text.as_str(), "item") {
        Some(item) => {
            let id: String = json_str_or_empty(item.as_str(), "id");
            let kind: String = json_str_or_empty(item.as_str(), "type");
            let message: String = error_message(item.as_str());
            let n: usize = label_len(message.as_str());
            id.as_str().is_empty() || !same_text(kind.as_str(), "error")
                || message.as_str().is_char_boundary(n)
        },
        None => true,
    }
}

/// Reads one line of output, with the state carried as bytes from the last line
/// to the next: the new bytes, and the events that the line gives.
pub fn agent_parse_line(line: &[u8], state: &[u8]) -> (out: (Vec<u8>, Vec<AgentEvent>))
    requires
        is_readable_line(line@),
    ensures
        out.0@ == parse_line(line@, state@).0,
        out.1.deep_view() == parse_line(line@, state@).1,
{
    let text: String = match str_from_utf8(line) {
        Some(text) => trimmed_text(text),
        None => {
            return (slice_to_vec(state), no_events());
        },
    };
    if text.as_str().is_empty() {
        return (slice_to_vec(state), no_events());
    }
    let mut ps: ParseState = ParseState::decode(state);
    let events: Vec<AgentEvent> = parse_codex_line(text.as_str(), &mut ps);
    (ps.encode(), events)
}

} // verus!
