//! What is reported for each kind of line, told from the text of the line alone.
//!
//! Each law takes a line as it was written and gives the events, field for
//! field, and the state behind it.
use crate::command::{call_label, call_text, command_label, command_paths};
use crate::event::EventView;
use crate::json::{object_field, str_field, str_field_or_empty};
use crate::laws::label_shows_start_of_message;
use crate::parser::{
    can_be_cut, error_events, error_text, exit_code, is_readable, is_readable_line, label_bytes,
    label_part, message_said, message_text, output_id, parse_line, read_line,
};
use crate::shown::text_of_call_is_its_command;
use crate::state::{decode_state, encode_state, StateView};
use crate::stored::items_keep_their_order;
use crate::text::{filled_lines, is_whitespace};
use crate::wording::{
    can_be_ended, ended_lines, filled_lines_are_the_lines, is_without, trim_takes_ends_alone,
};
use crate::written::{
    holds_integer, holds_no_integer, holds_no_object, holds_no_string, holds_object, holds_string,
    is_white, no_integer_is_read_unwritten, no_object_is_read_unwritten,
    no_string_is_read_unwritten, written_integer_is_read, written_object_is_read,
    written_string_is_read,
};
use vstd::prelude::*;
use vstd::utf8::{
    encode_utf8, encode_utf8_decode_utf8, encode_utf8_first_scalar, encode_utf8_valid_utf8,
    is_char_boundary, pop_first_scalar, valid_utf8,
};

verus! {

/// Whether the field holds the string, or there is none and the text is empty.
pub open spec fn holds_text(json: Seq<char>, key: Seq<char>, s: Seq<char>) -> bool {
    holds_string(json, key, s) || holds_no_string(json, key) && s.len() == 0
}

/// Whether the line is of the type and has the item.
pub open spec fn carries(line: Seq<char>, kind: Seq<char>, item: Seq<char>) -> bool {
    holds_string(line, "type"@, kind) && holds_object(line, "item"@, item)
}

/// Whether the item is of the type and has the id, which is not empty.
pub open spec fn describes(item: Seq<char>, kind: Seq<char>, id: Seq<char>) -> bool {
    holds_string(item, "type"@, kind) && holds_string(item, "id"@, id) && id.len() > 0
}

/// The state with the item behind the other ones, where it was not among them.
pub open spec fn with_item(s: StateView, id: Seq<char>) -> StateView {
    StateView {
        open_items: if exists|i: int|
            0 <= i < s.open_items.len() && #[trigger] s.open_items[i] == id {
            s.open_items
        } else {
            s.open_items + seq![id]
        },
        open_message: s.open_message,
    }
}

/// A text that was written is read as it is, and one that is missing as the empty
/// text.
pub proof fn written_text_is_read(json: Seq<char>, key: Seq<char>, s: Seq<char>)
    requires
        holds_text(json, key, s),
    ensures
        str_field_or_empty(json, key) == s,
{
    if holds_string(json, key, s) {
        written_string_is_read(json, key, s);
    } else {
        no_string_is_read_unwritten(json, key);
        assert(s =~= seq![]);
    }
}

proof fn lemma_carries(line: Seq<char>, kind: Seq<char>, item: Seq<char>)
    requires
        carries(line, kind, item),
    ensures
        str_field(line, "type"@) == Some(kind),
        object_field(line, "item"@) == Some(item),
{
    written_string_is_read(line, "type"@, kind);
    written_object_is_read(line, "item"@, item);
}

proof fn lemma_describes(item: Seq<char>, kind: Seq<char>, id: Seq<char>)
    requires
        describes(item, kind, id),
    ensures
        str_field_or_empty(item, "type"@) == kind,
        str_field_or_empty(item, "id"@) == id,
{
    written_string_is_read(item, "type"@, kind);
    written_string_is_read(item, "id"@, id);
}

proof fn lemma_with_item(s: StateView, id: Seq<char>)
    ensures
        s.insert(id) == with_item(s, id),
{
    if !s.open_items.contains(id) {
        assert(s.open_items.push(id) =~= s.open_items + seq![id]);
    }
}

/// The types of lines and of items are told apart.
proof fn lemma_kinds_differ()
    ensures
        "item.started"@ != "item.completed"@,
        "item.started"@ != "turn.completed"@,
        "item.started"@ != "thread.started"@,
        "item.completed"@ != "turn.completed"@,
        "item.completed"@ != "thread.started"@,
        "turn.completed"@ != "thread.started"@,
        "command_execution"@ != "function_call"@,
        "command_execution"@ != "function_call_output"@,
        "command_execution"@ != "agent_message"@,
        "command_execution"@ != "error"@,
        "function_call"@ != "function_call_output"@,
        "function_call"@ != "agent_message"@,
        "function_call"@ != "error"@,
        "function_call_output"@ != "agent_message"@,
        "function_call_output"@ != "error"@,
        "agent_message"@ != "error"@,
{
    reveal_strlit("item.started");
    reveal_strlit("item.completed");
    reveal_strlit("turn.completed");
    reveal_strlit("thread.started");
    reveal_strlit("command_execution");
    reveal_strlit("function_call");
    reveal_strlit("function_call_output");
    reveal_strlit("agent_message");
    reveal_strlit("error");
    assert("item.started"@.len() == 12);
    assert("item.completed"@.len() == 14 && "item.completed"@[0] == 'i');
    assert("turn.completed"@.len() == 14 && "turn.completed"@[1] == 'u');
    assert("thread.started"@.len() == 14 && "thread.started"@[1] == 'h');
    assert("item.completed"@[1] == 't');
    assert("command_execution"@.len() == 17);
    assert("function_call"@.len() == 13 && "function_call"@[0] == 'f');
    assert("function_call_output"@.len() == 20);
    assert("agent_message"@.len() == 13 && "agent_message"@[0] == 'a');
    assert("error"@.len() == 5);
}

/// The start of a thread gives the id of the session, exactly as it was written,
/// and leaves the state as it was. Without an id it gives nothing.
pub proof fn thread_start_gives_its_id(line: Seq<char>, id: Seq<char>, s: StateView)
    requires
        holds_string(line, "type"@, "thread.started"@),
    ensures
        holds_string(line, "thread_id"@, id) ==> read_line(line, s) == (
            s,
            seq![EventView::SessionIDAvailable(id)],
        ),
        holds_no_string(line, "thread_id"@) ==> read_line(line, s) == (
            s,
            Seq::<EventView>::empty(),
        ),
{
    lemma_kinds_differ();
    written_string_is_read(line, "type"@, "thread.started"@);
    if holds_string(line, "thread_id"@, id) {
        written_string_is_read(line, "thread_id"@, id);
    }
    if holds_no_string(line, "thread_id"@) {
        no_string_is_read_unwritten(line, "thread_id"@);
    }
}

/// The end of a turn ends the session with success, and closes the message and
/// no item.
pub proof fn turn_end_ends_the_session(line: Seq<char>, s: StateView)
    requires
        holds_string(line, "type"@, "turn.completed"@),
    ensures
        read_line(line, s) == (
            StateView { open_items: s.open_items, open_message: false },
            seq![EventView::SessionEnded { success: true }],
        ),
{
    lemma_kinds_differ();
    written_string_is_read(line, "type"@, "turn.completed"@);
}

/// The start of a command opens an entry with its id and with the command as it
/// was written.
pub proof fn command_start_opens_its_entry(
    line: Seq<char>,
    item: Seq<char>,
    id: Seq<char>,
    cmd: Seq<char>,
    s: StateView,
)
    requires
        carries(line, "item.started"@, item),
        describes(item, "command_execution"@, id),
        holds_text(item, "command"@, cmd),
    ensures
        read_line(line, s) == (
            with_item(s, id),
            seq![
                EventView::NewEntry {
                    vendor_id: id,
                    tool: command_label(cmd).0,
                    category: command_label(cmd).1,
                    raw_cmd: cmd,
                    file_paths: command_paths(cmd),
                },
            ],
        ),
{
    lemma_kinds_differ();
    lemma_carries(line, "item.started"@, item);
    lemma_describes(item, "command_execution"@, id);
    written_text_is_read(item, "command"@, cmd);
    lemma_with_item(s, id);
}

/// Whether the code is what is left of the number in 32 bits.
pub open spec fn is_low_half(n: int, code: i32) -> bool {
    (n - code) % 0x1_0000_0000 == 0
}

/// Whether the item reports the exit code: the number, in 32 bits, or zero where
/// there is none or it is beyond 64 bits.
pub open spec fn reports_code(item: Seq<char>, code: i32) -> bool {
    ||| exists|n: int| #[trigger] holds_integer(item, "exit_code"@, n) && is_reduced(n, code)
    ||| holds_no_integer(item, "exit_code"@) && code == 0
}

/// Whether the code is the number in 32 bits, and zero where the number is
/// beyond 64 bits.
pub open spec fn is_reduced(n: int, code: i32) -> bool {
    if -0x8000_0000_0000_0000 <= n <= 0x7fff_ffff_ffff_ffff {
        is_low_half(n, code)
    } else {
        code == 0
    }
}

proof fn lemma_low_half(n: i64)
    ensures
        is_low_half(n as int, n as i32),
{
    assert((n - (n as i32)) % 0x1_0000_0000 == 0) by (bit_vector);
}

/// The exit code of a command is the number that was written, where it is within
/// the bounds of `i32`, and its lower 32 bits else. There is none beyond the
/// bounds of `i64`, and zero stands for none.
pub proof fn exit_code_is_the_number(item: Seq<char>, n: int)
    ensures
        holds_integer(item, "exit_code"@, n) ==> is_reduced(n, exit_code(item)),
        holds_integer(item, "exit_code"@, n) && -0x8000_0000 <= n <= 0x7fff_ffff ==> exit_code(item)
            == n,
        holds_no_integer(item, "exit_code"@) ==> exit_code(item) == 0,
{
    if holds_integer(item, "exit_code"@, n) {
        written_integer_is_read(item, "exit_code"@, n);
        if i64::MIN <= n <= i64::MAX {
            lemma_low_half(n as i64);
        }
    }
    if holds_no_integer(item, "exit_code"@) {
        no_integer_is_read_unwritten(item, "exit_code"@);
    }
}

proof fn lemma_one_code(n: int, a: i32, b: i32)
    requires
        is_reduced(n, a),
        is_reduced(n, b),
    ensures
        a == b,
{
}

proof fn lemma_code(item: Seq<char>, code: i32)
    requires
        reports_code(item, code),
    ensures
        exit_code(item) == code,
{
    if exists|n: int| #[trigger] holds_integer(item, "exit_code"@, n) && is_reduced(n, code) {
        let n = choose|n: int| #[trigger]
            holds_integer(item, "exit_code"@, n) && is_reduced(n, code);
        exit_code_is_the_number(item, n);
        lemma_one_code(n, code, exit_code(item));
    } else {
        exit_code_is_the_number(item, 0);
    }
}

/// Whether the text is these lines with their endings, and the last line.
pub open spec fn is_layout(
    text: Seq<char>,
    ls: Seq<Seq<char>>,
    with_returns: Seq<bool>,
    last: Seq<char>,
) -> bool {
    &&& text == ended_lines(ls, with_returns) + last
    &&& ls.len() == with_returns.len()
    &&& forall|i: int| 0 <= i < ls.len() ==> can_be_ended(#[trigger] ls[i], with_returns[i])
    &&& is_without(last, '\n')
}

/// Whether these are the lines of the text that are not empty.
pub open spec fn has_filled_lines(text: Seq<char>, filled: Seq<Seq<char>>) -> bool {
    exists|ls: Seq<Seq<char>>, with_returns: Seq<bool>, last: Seq<char>| #[trigger]
        is_layout(text, ls, with_returns, last) && filled == ls.push(last).filter(
            |l: Seq<char>| l.len() > 0,
        )
}

/// Whether the field of the item holds a text of these lines, besides empty ones.
pub open spec fn prints(item: Seq<char>, key: Seq<char>, filled: Seq<Seq<char>>) -> bool {
    exists|text: Seq<char>| #[trigger] holds_text(item, key, text) && has_filled_lines(text, filled)
}

proof fn lemma_prints(item: Seq<char>, key: Seq<char>, filled: Seq<Seq<char>>)
    requires
        prints(item, key, filled),
    ensures
        filled_lines(str_field_or_empty(item, key)) == filled,
{
    let text = choose|text: Seq<char>| #[trigger]
        holds_text(item, key, text) && has_filled_lines(text, filled);
    let (ls, with_returns, last) = choose|
        ls: Seq<Seq<char>>,
        with_returns: Seq<bool>,
        last: Seq<char>,
    | #[trigger]
        is_layout(text, ls, with_returns, last) && filled == ls.push(last).filter(
            |l: Seq<char>| l.len() > 0,
        );
    written_text_is_read(item, key, text);
    filled_lines_are_the_lines(ls, with_returns, last);
}

/// The end of a command that is open closes its entry, with the exit code and
/// the lines of the output, and takes the item out of the state.
pub proof fn command_end_closes_its_entry(
    line: Seq<char>,
    item: Seq<char>,
    id: Seq<char>,
    code: i32,
    filled: Seq<Seq<char>>,
    front: Seq<Seq<char>>,
    back: Seq<Seq<char>>,
    open: bool,
)
    requires
        carries(line, "item.completed"@, item),
        describes(item, "command_execution"@, id),
        reports_code(item, code),
        prints(item, "aggregated_output"@, filled),
        !front.contains(id),
    ensures
        read_line(
            line,
            StateView { open_items: front + seq![id] + back, open_message: open },
        ) == (
            StateView { open_items: front + back, open_message: open },
            seq![EventView::CloseEntry { vendor_id: id, exit_code: code, output_lines: filled }],
        ),
{
    lemma_kinds_differ();
    lemma_carries(line, "item.completed"@, item);
    lemma_describes(item, "command_execution"@, id);
    lemma_code(item, code);
    lemma_prints(item, "aggregated_output"@, filled);
    items_keep_their_order(front, id, back, open);
}

/// The end of a command that is not open opens its entry and closes it, and
/// leaves the state as it was.
pub proof fn command_end_without_start(
    line: Seq<char>,
    item: Seq<char>,
    id: Seq<char>,
    cmd: Seq<char>,
    code: i32,
    filled: Seq<Seq<char>>,
    s: StateView,
)
    requires
        carries(line, "item.completed"@, item),
        describes(item, "command_execution"@, id),
        holds_text(item, "command"@, cmd),
        reports_code(item, code),
        prints(item, "aggregated_output"@, filled),
        !s.open_items.contains(id),
    ensures
        read_line(line, s) == (
            s,
            seq![
                EventView::NewEntry {
                    vendor_id: id,
                    tool: command_label(cmd).0,
                    category: command_label(cmd).1,
                    raw_cmd: cmd,
                    file_paths: command_paths(cmd),
                },
                EventView::CloseEntry { vendor_id: id, exit_code: code, output_lines: filled },
            ],
        ),
{
    lemma_kinds_differ();
    lemma_carries(line, "item.completed"@, item);
    lemma_describes(item, "command_execution"@, id);
    written_text_is_read(item, "command"@, cmd);
    lemma_code(item, code);
    lemma_prints(item, "aggregated_output"@, filled);
}

/// Whether the item calls the tool: by its name, or, without one, as `tool`.
pub open spec fn calls(item: Seq<char>, name: Seq<char>) -> bool {
    holds_string(item, "name"@, name) || holds_no_string(item, "name"@) && name == "tool"@
}

/// A tool call opens an entry with its id, shown by its name and its arguments.
pub proof fn call_opens_its_entry(
    line: Seq<char>,
    item: Seq<char>,
    id: Seq<char>,
    name: Seq<char>,
    args: Seq<char>,
    s: StateView,
)
    requires
        carries(line, "item.completed"@, item),
        describes(item, "function_call"@, id),
        calls(item, name),
        holds_text(item, "arguments"@, args),
    ensures
        read_line(line, s) == (
            with_item(s, id),
            seq![
                EventView::NewEntry {
                    vendor_id: id,
                    tool: call_label(name, args).0,
                    category: call_label(name, args).1,
                    raw_cmd: call_text(args, name),
                    file_paths: call_label(name, args).2,
                },
            ],
        ),
{
    lemma_kinds_differ();
    lemma_carries(line, "item.completed"@, item);
    lemma_describes(item, "function_call"@, id);
    written_text_is_read(item, "arguments"@, args);
    lemma_with_item(s, id);
    if holds_string(item, "name"@, name) {
        written_string_is_read(item, "name"@, name);
    } else {
        no_string_is_read_unwritten(item, "name"@);
    }
}

/// The entry of a tool call shows the command of its arguments as it was
/// written, whatever it holds.
pub proof fn call_entry_shows_the_command(
    line: Seq<char>,
    item: Seq<char>,
    id: Seq<char>,
    name: Seq<char>,
    args: Seq<char>,
    cmd: Seq<char>,
    s: StateView,
)
    requires
        carries(line, "item.completed"@, item),
        describes(item, "function_call"@, id),
        calls(item, name),
        holds_string(item, "arguments"@, args),
        holds_string(args, "command"@, cmd),
    ensures
        read_line(line, s) == (
            with_item(s, id),
            seq![
                EventView::NewEntry {
                    vendor_id: id,
                    tool: call_label(name, args).0,
                    category: call_label(name, args).1,
                    raw_cmd: cmd,
                    file_paths: call_label(name, args).2,
                },
            ],
        ),
{
    call_opens_its_entry(line, item, id, name, args, s);
    text_of_call_is_its_command(name, args, cmd, seq![], seq![]);
}

/// Whether the item gives the output of the call: the one that it names, or,
/// where it names none, the one of its own id.
pub open spec fn answers(item: Seq<char>, id: Seq<char>, call: Seq<char>) -> bool {
    holds_string(item, "call_id"@, call) || holds_no_string(item, "call_id"@) && call == id
}

proof fn lemma_answers(item: Seq<char>, id: Seq<char>, call: Seq<char>)
    requires
        answers(item, id, call),
    ensures
        output_id(id, item) == call,
{
    if holds_string(item, "call_id"@, call) {
        written_string_is_read(item, "call_id"@, call);
    } else {
        no_string_is_read_unwritten(item, "call_id"@);
    }
}

/// The output of a call that is open closes the entry of the call, with exit
/// code zero and the lines of the output, and takes the call out of the state.
pub proof fn output_closes_the_entry(
    line: Seq<char>,
    item: Seq<char>,
    id: Seq<char>,
    call: Seq<char>,
    filled: Seq<Seq<char>>,
    front: Seq<Seq<char>>,
    back: Seq<Seq<char>>,
    open: bool,
)
    requires
        carries(line, "item.completed"@, item),
        describes(item, "function_call_output"@, id),
        answers(item, id, call),
        prints(item, "output"@, filled),
        !front.contains(call),
    ensures
        read_line(
            line,
            StateView { open_items: front + seq![call] + back, open_message: open },
        ) == (
            StateView { open_items: front + back, open_message: open },
            seq![EventView::CloseEntry { vendor_id: call, exit_code: 0, output_lines: filled }],
        ),
{
    lemma_kinds_differ();
    lemma_carries(line, "item.completed"@, item);
    lemma_describes(item, "function_call_output"@, id);
    lemma_answers(item, id, call);
    lemma_prints(item, "output"@, filled);
    items_keep_their_order(front, call, back, open);
}

/// The output of a call that is not open is dropped.
pub proof fn output_of_no_call_is_dropped(
    line: Seq<char>,
    item: Seq<char>,
    id: Seq<char>,
    call: Seq<char>,
    s: StateView,
)
    requires
        carries(line, "item.completed"@, item),
        describes(item, "function_call_output"@, id),
        answers(item, id, call),
        !s.open_items.contains(call),
    ensures
        read_line(line, s) == (s, Seq::<EventView>::empty()),
{
    lemma_kinds_differ();
    lemma_carries(line, "item.completed"@, item);
    lemma_describes(item, "function_call_output"@, id);
    lemma_answers(item, id, call);
}

/// Whether the item says the text: as its content, without one as its text, and
/// without both as its message.
pub open spec fn says(item: Seq<char>, text: Seq<char>) -> bool {
    ||| holds_string(item, "content"@, text)
    ||| holds_no_string(item, "content"@) && holds_string(item, "text"@, text)
    ||| holds_no_string(item, "content"@) && holds_no_string(item, "text"@) && holds_text(
        item,
        "message"@,
        text,
    )
}

/// Whether the text starts and ends with characters that are no white space.
pub open spec fn has_visible_ends(s: Seq<char>) -> bool {
    s.len() > 0 && !is_whitespace(s[0]) && !is_whitespace(s[s.len() - 1])
}

proof fn lemma_says(item: Seq<char>, front: Seq<char>, text: Seq<char>, back: Seq<char>)
    requires
        says(item, front + text + back),
        is_white(front),
        is_white(back),
        text.len() > 0 ==> has_visible_ends(text),
    ensures
        message_text(item) == text,
{
    let all = front + text + back;
    if holds_string(item, "content"@, all) {
        written_string_is_read(item, "content"@, all);
    } else {
        no_string_is_read_unwritten(item, "content"@);
        if holds_string(item, "text"@, all) {
            written_string_is_read(item, "text"@, all);
        } else {
            no_string_is_read_unwritten(item, "text"@);
            written_text_is_read(item, "message"@, all);
        }
    }
    trim_takes_ends_alone(front, text, back);
}

/// What an item says is handed on as it was written, but for the white space at
/// its two ends: as a new entry where no message is open, and else as more text
/// for the entry. Line feeds within it are kept, and the items stay as they are.
pub proof fn item_says_its_text(
    item: Seq<char>,
    front: Seq<char>,
    text: Seq<char>,
    back: Seq<char>,
    items: Seq<Seq<char>>,
    open: bool,
)
    requires
        says(item, front + text + back),
        is_white(front),
        is_white(back),
        text.len() > 0 ==> has_visible_ends(text),
    ensures
        message_said(item, StateView { open_items: items, open_message: open }) == (if text.len()
            == 0 {
            (StateView { open_items: items, open_message: open }, Seq::<EventView>::empty())
        } else if open {
            (
                StateView { open_items: items, open_message: true },
                seq![EventView::AppendToEntry { vendor_id: "codex-message"@, text }],
            )
        } else {
            (
                StateView { open_items: items, open_message: true },
                seq![
                    EventView::NewEntry {
                        vendor_id: "codex-message"@,
                        tool: text,
                        category: "message"@,
                        raw_cmd: seq![],
                        file_paths: seq![],
                    },
                ],
            )
        }),
{
    lemma_says(item, front, text, back);
}

proof fn lemma_message_line(line: Seq<char>, item: Seq<char>, id: Seq<char>, s: StateView)
    requires
        carries(line, "item.completed"@, item),
        describes(item, "agent_message"@, id),
    ensures
        read_line(line, s) == message_said(item, s),
{
    lemma_kinds_differ();
    lemma_carries(line, "item.completed"@, item);
    lemma_describes(item, "agent_message"@, id);
}

/// A message is reported as it was written, but for the white space at its two
/// ends: as a new entry where no message is open, and else as more text for the
/// entry. Line feeds within it are kept. A message of white space is dropped.
pub proof fn message_is_reported_whole(
    line: Seq<char>,
    item: Seq<char>,
    id: Seq<char>,
    front: Seq<char>,
    text: Seq<char>,
    back: Seq<char>,
    items: Seq<Seq<char>>,
)
    requires
        carries(line, "item.completed"@, item),
        describes(item, "agent_message"@, id),
        says(item, front + text + back),
        is_white(front),
        is_white(back),
        text.len() > 0 ==> has_visible_ends(text),
    ensures
        text.len() > 0 ==> read_line(line, StateView { open_items: items, open_message: false })
            == (
            StateView { open_items: items, open_message: true },
            seq![
                EventView::NewEntry {
                    vendor_id: "codex-message"@,
                    tool: text,
                    category: "message"@,
                    raw_cmd: seq![],
                    file_paths: seq![],
                },
            ],
        ),
        text.len() > 0 ==> read_line(line, StateView { open_items: items, open_message: true })
            == (
            StateView { open_items: items, open_message: true },
            seq![EventView::AppendToEntry { vendor_id: "codex-message"@, text }],
        ),
        text.len() == 0 ==> read_line(line, StateView { open_items: items, open_message: false })
            == (
            StateView { open_items: items, open_message: false },
            Seq::<EventView>::empty(),
        ),
        text.len() == 0 ==> read_line(line, StateView { open_items: items, open_message: true })
            == (
            StateView { open_items: items, open_message: true },
            Seq::<EventView>::empty(),
        ),
{
    let closed = StateView { open_items: items, open_message: false };
    let open = StateView { open_items: items, open_message: true };
    lemma_message_line(line, item, id, closed);
    lemma_message_line(line, item, id, open);
    item_says_its_text(item, front, text, back, items, false);
    item_says_its_text(item, front, text, back, items, true);
}

proof fn lemma_encode_concat(a: Seq<char>, b: Seq<char>)
    ensures
        encode_utf8(a + b) == encode_utf8(a) + encode_utf8(b),
    decreases a.len(),
{
    if a.len() == 0 {
        assert(a + b =~= b);
    } else {
        lemma_encode_concat(a.drop_first(), b);
        assert((a + b).drop_first() =~= a.drop_first() + b);
        assert(encode_utf8(a + b) =~= encode_utf8(a) + encode_utf8(b));
    }
}

proof fn lemma_boundary(a: Seq<char>, b: Seq<char>)
    ensures
        is_char_boundary(encode_utf8(a + b), encode_utf8(a).len() as int),
    decreases a.len(),
{
    let all = encode_utf8(a + b);
    encode_utf8_valid_utf8(a + b);
    lemma_encode_concat(a, b);
    if a.len() > 0 {
        encode_utf8_first_scalar(a + b);
        lemma_boundary(a.drop_first(), b);
        assert((a + b).drop_first() =~= a.drop_first() + b);
        assert(pop_first_scalar(all) =~= encode_utf8((a + b).drop_first()));
    }
}

/// Whether the label of an error shows this part of its message: all of a
/// message of fewer than 60 bytes, and else its first characters, of 60 bytes
/// together.
pub open spec fn is_label_start(message: Seq<char>, part: Seq<char>) -> bool {
    &&& part.is_prefix_of(message)
    &&& encode_utf8(part).len() == 60 || part == message && encode_utf8(message).len() < 60
}

proof fn lemma_label(message: Seq<char>, part: Seq<char>)
    requires
        is_label_start(message, part),
    ensures
        can_be_cut(message),
        label_part(message) == part,
{
    let more = message.skip(part.len() as int);
    assert(message =~= part + more);
    lemma_encode_concat(part, more);
    lemma_boundary(part, more);
    let n = encode_utf8(part).len() as int;
    assert(encode_utf8(message).take(n) =~= encode_utf8(part));
    encode_utf8_decode_utf8(part);
    if part == message {
        assert(more =~= seq![]);
    }
    assert(label_bytes(message) == n);
}

/// Whether the item tells the message of an error.
pub open spec fn tells(item: Seq<char>, message: Seq<char>) -> bool {
    holds_string(item, "message"@, message) || holds_no_string(item, "message"@) && message
        == "unknown error"@
}

proof fn lemma_tells(item: Seq<char>, message: Seq<char>)
    requires
        tells(item, message),
    ensures
        error_text(item) == message,
{
    if holds_string(item, "message"@, message) {
        written_string_is_read(item, "message"@, message);
    } else {
        no_string_is_read_unwritten(item, "message"@);
    }
}

proof fn lemma_error_line(line: Seq<char>, item: Seq<char>, id: Seq<char>, s: StateView)
    requires
        carries(line, "item.completed"@, item),
        describes(item, "error"@, id),
    ensures
        read_line(line, s) == (s, error_events(id, item)),
{
    lemma_kinds_differ();
    lemma_carries(line, "item.completed"@, item);
    lemma_describes(item, "error"@, id);
}

/// An error opens an entry of its own, with the start of its message in the
/// label and all of it in the text, and closes it with exit code one. The state
/// is left as it was.
pub proof fn error_is_reported_whole(
    line: Seq<char>,
    item: Seq<char>,
    id: Seq<char>,
    message: Seq<char>,
    part: Seq<char>,
    s: StateView,
)
    requires
        carries(line, "item.completed"@, item),
        describes(item, "error"@, id),
        tells(item, message),
        is_label_start(message, part),
    ensures
        read_line(line, s) == (
            s,
            seq![
                EventView::NewEntry {
                    vendor_id: "err:"@ + id,
                    tool: "Error: "@ + part,
                    category: "error"@,
                    raw_cmd: message,
                    file_paths: seq![],
                },
                EventView::CloseEntry {
                    vendor_id: "err:"@ + id,
                    exit_code: 1,
                    output_lines: seq![],
                },
            ],
        ),
{
    lemma_error_line(line, item, id, s);
    lemma_tells(item, message);
    lemma_label(message, part);
}

/// An error can be read exactly where its message has a start for the label.
pub proof fn error_is_readable_where_it_can_be_cut(
    line: Seq<char>,
    item: Seq<char>,
    id: Seq<char>,
    message: Seq<char>,
)
    requires
        carries(line, "item.completed"@, item),
        describes(item, "error"@, id),
        tells(item, message),
    ensures
        is_readable(line) <==> exists|part: Seq<char>| #[trigger] is_label_start(message, part),
{
    lemma_carries(line, "item.completed"@, item);
    lemma_describes(item, "error"@, id);
    lemma_tells(item, message);
    if exists|part: Seq<char>| #[trigger] is_label_start(message, part) {
        let part = choose|part: Seq<char>| #[trigger] is_label_start(message, part);
        lemma_label(message, part);
    }
    if can_be_cut(message) {
        label_shows_start_of_message(message);
        assert(is_label_start(message, label_part(message)));
    }
}

/// Every line that is not a completed error can be read.
pub proof fn other_lines_are_readable(
    line: Seq<char>,
    kind: Seq<char>,
    item: Seq<char>,
    item_kind: Seq<char>,
)
    ensures
        holds_no_string(line, "type"@) ==> is_readable(line),
        holds_string(line, "type"@, kind) && kind != "item.completed"@ ==> is_readable(line),
        holds_no_object(line, "item"@) ==> is_readable(line),
        holds_object(line, "item"@, item) && holds_text(item, "id"@, seq![]) ==> is_readable(line),
        holds_object(line, "item"@, item) && holds_text(item, "type"@, item_kind) && item_kind
            != "error"@ ==> is_readable(line),
{
    if holds_no_string(line, "type"@) {
        no_string_is_read_unwritten(line, "type"@);
    }
    if holds_string(line, "type"@, kind) {
        written_string_is_read(line, "type"@, kind);
    }
    if holds_no_object(line, "item"@) {
        no_object_is_read_unwritten(line, "item"@);
    }
    if holds_object(line, "item"@, item) {
        written_object_is_read(line, "item"@, item);
        if holds_text(item, "id"@, seq![]) {
            written_text_is_read(item, "id"@, seq![]);
        }
        if holds_text(item, "type"@, item_kind) {
            written_text_is_read(item, "type"@, item_kind);
        }
    }
}

/// A line of another type than the four known ones, and one without a type, is
/// dropped.
pub proof fn other_lines_are_dropped(line: Seq<char>, kind: Seq<char>, s: StateView)
    requires
        holds_no_string(line, "type"@) || holds_string(line, "type"@, kind) && kind
            != "item.started"@ && kind != "item.completed"@ && kind != "turn.completed"@ && kind
            != "thread.started"@,
    ensures
        read_line(line, s) == (s, Seq::<EventView>::empty()),
{
    if holds_no_string(line, "type"@) {
        no_string_is_read_unwritten(line, "type"@);
    } else {
        written_string_is_read(line, "type"@, kind);
    }
}

/// A line about an item that it does not hold is dropped.
pub proof fn lines_without_item_are_dropped(line: Seq<char>, kind: Seq<char>, s: StateView)
    requires
        kind == "item.started"@ || kind == "item.completed"@,
        holds_string(line, "type"@, kind),
        holds_no_object(line, "item"@),
    ensures
        read_line(line, s) == (s, Seq::<EventView>::empty()),
{
    lemma_kinds_differ();
    written_string_is_read(line, "type"@, kind);
    no_object_is_read_unwritten(line, "item"@);
}

/// An item without an id is dropped, and so is one of a type that is not known.
/// The start of an item is dropped unless it is a command.
pub proof fn other_items_are_dropped(
    line: Seq<char>,
    kind: Seq<char>,
    item: Seq<char>,
    item_kind: Seq<char>,
    s: StateView,
)
    requires
        kind == "item.started"@ || kind == "item.completed"@,
        carries(line, kind, item),
        ({
            ||| holds_text(item, "id"@, seq![])
            ||| holds_text(item, "type"@, item_kind) && item_kind != "command_execution"@ && (kind
                == "item.started"@ || item_kind != "function_call"@ && item_kind
                != "function_call_output"@ && item_kind != "agent_message"@ && item_kind
                != "error"@)
        }),
    ensures
        read_line(line, s) == (s, Seq::<EventView>::empty()),
{
    lemma_kinds_differ();
    lemma_carries(line, kind, item);
    if holds_text(item, "id"@, seq![]) {
        written_text_is_read(item, "id"@, seq![]);
    } else {
        written_text_is_read(item, "type"@, item_kind);
    }
}

/// A line of bytes is read without the white space at its two ends, from the
/// state that the bytes carry, and hands out the bytes of the state behind it.
/// A line of white space, and one that is no UTF-8, hands out the bytes as they
/// came and gives nothing.
pub proof fn bytes_are_read_as_text(
    line: Seq<u8>,
    front: Seq<char>,
    text: Seq<char>,
    back: Seq<char>,
    state: Seq<u8>,
)
    requires
        is_white(front),
        is_white(back),
        text.len() > 0 ==> has_visible_ends(text),
    ensures
        line == encode_utf8(front + text + back) && text.len() > 0 ==> parse_line(line, state) == (
            encode_state(read_line(text, decode_state(state)).0),
            read_line(text, decode_state(state)).1,
        ),
        line == encode_utf8(front + text + back) && text.len() > 0 ==> is_readable_line(line)
            == is_readable(text),
        line == encode_utf8(front + text + back) && text.len() == 0 || !valid_utf8(line) ==> {
            &&& parse_line(line, state) == (state, Seq::<EventView>::empty())
            &&& is_readable_line(line)
        },
{
    let all = front + text + back;
    encode_utf8_valid_utf8(all);
    encode_utf8_decode_utf8(all);
    trim_takes_ends_alone(front, text, back);
}

} // verus!
