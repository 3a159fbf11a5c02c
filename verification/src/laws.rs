//! What holds of the parser over several lines.
use crate::command::command_category_is_known;
use crate::event::EventView;
use crate::json::{object_field, str_field, str_field_or_empty};
use crate::parser::{
    call_entry, call_name, can_be_cut, command_end, command_entry, is_blank, label_bytes,
    label_part, line_text, message_text, output_id, parse_line, read_line, LABEL_BYTES,
};
use crate::state::{
    decode_state, decode_undoes_encode, decoded_state_fits, encode_state, insert_opens_one_item,
    items_stay_distinct, remove_closes_one_item, remove_undoes_insert, StateView, LIMIT,
};
use crate::text::filled_lines;
use vstd::prelude::*;
use vstd::utf8::{
    decode_utf8, decode_utf8_encode_utf8, decode_utf8_split, encode_utf8, encode_utf8_decode_utf8,
    encode_utf8_valid_utf8, is_ascii_chars, is_ascii_chars_encode_utf8,
    is_char_boundary_iff_not_is_continuation_byte, is_char_boundary_start_end_of_seq,
    valid_utf8_split,
};

verus! {

/// The items of the state are distinct, and none of them is without an id.
pub open spec fn is_tidy(s: StateView) -> bool {
    &&& s.open_items.no_duplicates()
    &&& forall|i: int| 0 <= i < s.open_items.len() ==> (#[trigger] s.open_items[i]).len() > 0
}

/// Whether the event opens the entry of an item.
pub open spec fn opens(e: EventView, id: Seq<char>) -> bool {
    match e {
        EventView::NewEntry { vendor_id, category, .. } => vendor_id == id && category
            != "message"@ && category != "error"@,
        _ => false,
    }
}

/// Whether the event closes an entry.
pub open spec fn closes(e: EventView, id: Seq<char>) -> bool {
    match e {
        EventView::CloseEntry { vendor_id, .. } => vendor_id == id,
        _ => false,
    }
}

/// Whether one of the events opens the entry of an item.
pub open spec fn some_opens(events: Seq<EventView>, id: Seq<char>) -> bool {
    exists|i: int| 0 <= i < events.len() && opens(#[trigger] events[i], id)
}

/// Whether one of the events closes an entry.
pub open spec fn some_closes(events: Seq<EventView>, id: Seq<char>) -> bool {
    exists|i: int| 0 <= i < events.len() && closes(#[trigger] events[i], id)
}

/// The id of the entry that a line with an error makes.
pub open spec fn error_entry(line: Seq<char>) -> Option<Seq<char>> {
    match (str_field(line, "type"@), object_field(line, "item"@)) {
        (Some(kind), Some(item)) => if kind == "item.completed"@ && str_field_or_empty(item, "id"@).len()
            > 0 && str_field_or_empty(item, "type"@) == "error"@ {
            Some("err:"@ + str_field_or_empty(item, "id"@))
        } else {
            None
        },
        _ => None,
    }
}

/// The id that an event is about, where it is about an entry.
pub open spec fn entry_id(e: EventView) -> Option<Seq<char>> {
    match e {
        EventView::NewEntry { vendor_id, .. } => Some(vendor_id),
        EventView::CloseEntry { vendor_id, .. } => Some(vendor_id),
        EventView::AppendToEntry { vendor_id, .. } => Some(vendor_id),
        EventView::SessionEnded { .. } => None,
        EventView::SessionIDAvailable(_) => None,
    }
}

/// What a line does where the state is kept as it is and not as bytes.
pub open spec fn read_bytes(line: Seq<u8>, s: StateView) -> (StateView, Seq<EventView>) {
    if is_blank(line) {
        (s, seq![])
    } else {
        read_line(line_text(line), s)
    }
}

/// The state and the events after many lines, where the state is kept as it is.
pub open spec fn read_all(lines: Seq<Seq<u8>>, s: StateView) -> (StateView, Seq<EventView>)
    decreases lines.len(),
{
    if lines.len() == 0 {
        (s, seq![])
    } else {
        let first = read_bytes(lines[0], s);
        let later = read_all(lines.drop_first(), first.0);
        (later.0, first.1 + later.1)
    }
}

/// The bytes and the events after many lines, where the state is carried as
/// bytes from each line to the next.
pub open spec fn parse_all(lines: Seq<Seq<u8>>, state: Seq<u8>) -> (Seq<u8>, Seq<EventView>)
    decreases lines.len(),
{
    if lines.len() == 0 {
        (state, seq![])
    } else {
        let first = parse_line(lines[0], state);
        let later = parse_all(lines.drop_first(), first.0);
        (later.0, first.1 + later.1)
    }
}

/// Whether the bytes can carry the state whole after each of the lines that are
/// not blank.
pub open spec fn all_fit(lines: Seq<Seq<u8>>, s: StateView) -> bool
    decreases lines.len(),
{
    lines.len() > 0 ==> {
        let next = read_bytes(lines[0], s).0;
        &&& is_blank(lines[0]) || next.fits()
        &&& all_fit(lines.drop_first(), next)
    }
}

/// A line with nothing to read gives no event and leaves the bytes of the state
/// as they are.
pub proof fn blank_line_changes_nothing(line: Seq<u8>, state: Seq<u8>)
    requires
        is_blank(line),
    ensures
        parse_line(line, state) == (state, Seq::<EventView>::empty()),
{
}

/// Carried as bytes from each line to the next, the state gives the same events
/// as one that is kept, as long as the bytes can carry it whole.
pub proof fn bytes_carry_the_state(lines: Seq<Seq<u8>>, state: Seq<u8>)
    requires
        all_fit(lines, decode_state(state)),
    ensures
        parse_all(lines, state).1 == read_all(lines, decode_state(state)).1,
        decode_state(parse_all(lines, state).0) == read_all(lines, decode_state(state)).0,
    decreases lines.len(),
{
    if lines.len() > 0 {
        let s = decode_state(state);
        let next = read_bytes(lines[0], s).0;
        if !is_blank(lines[0]) {
            decode_undoes_encode(next);
        }
        bytes_carry_the_state(lines.drop_first(), parse_line(lines[0], state).0);
    }
}

/// A session starts from no bytes with nothing open.
pub proof fn no_bytes_mean_nothing_open()
    ensures
        decode_state(seq![]) == StateView::closed(),
        is_tidy(StateView::closed()),
        decode_state(encode_state(StateView::closed())) == StateView::closed(),
{
    decode_undoes_encode(StateView::closed());
}

/// Whether the line reports that the item has been started.
pub open spec fn is_start(line: Seq<char>, item: Seq<char>) -> bool {
    str_field(line, "type"@) == Some("item.started"@) && object_field(line, "item"@) == Some(item)
}

/// Whether the line reports that the item has been completed.
pub open spec fn is_completion(line: Seq<char>, item: Seq<char>) -> bool {
    str_field(line, "type"@) == Some("item.completed"@) && object_field(line, "item"@) == Some(item)
}

/// Whether the item has the id and is of the type.
pub open spec fn is_item(item: Seq<char>, id: Seq<char>, kind: Seq<char>) -> bool {
    &&& id.len() > 0
    &&& str_field_or_empty(item, "id"@) == id
    &&& str_field_or_empty(item, "type"@) == kind
}

/// The types of lines and of items are told apart.
proof fn lemma_types_differ()
    ensures
        "item.started"@ != "item.completed"@,
        "item.started"@ != "turn.completed"@,
        "item.completed"@ != "turn.completed"@,
        "command_execution"@ != "function_call"@,
        "command_execution"@ != "function_call_output"@,
        "function_call"@ != "function_call_output"@,
        "agent_message"@ != "command_execution"@,
        "agent_message"@ != "function_call"@,
        "agent_message"@ != "function_call_output"@,
{
    reveal_strlit("item.started");
    reveal_strlit("item.completed");
    reveal_strlit("turn.completed");
    reveal_strlit("command_execution");
    reveal_strlit("function_call");
    reveal_strlit("function_call_output");
    assert("item.started"@.len() == 12);
    assert("item.completed"@.len() == 14 && "item.completed"@[0] == 'i');
    assert("turn.completed"@.len() == 14 && "turn.completed"@[0] == 't');
    assert("command_execution"@.len() == 17);
    assert("function_call"@.len() == 13 && "function_call"@[0] == 'f');
    assert("function_call_output"@.len() == 20);
    reveal_strlit("agent_message");
    assert("agent_message"@.len() == 13 && "agent_message"@[0] == 'a');
}

/// A command that was started and then completes has its entry closed, with its
/// exit code and its output, and nothing else is reported. Where it was not open
/// before its start, the state is then as it was.
pub proof fn completion_closes_started_command(
    start_line: Seq<char>,
    start: Seq<char>,
    end_line: Seq<char>,
    end: Seq<char>,
    id: Seq<char>,
    s: StateView,
)
    requires
        is_start(start_line, start),
        is_completion(end_line, end),
        is_item(start, id, "command_execution"@),
        is_item(end, id, "command_execution"@),
    ensures
        ({
            let opened = read_line(start_line, s);
            let closed = read_line(end_line, opened.0);
            &&& opened.1 == seq![command_entry(id, str_field_or_empty(start, "command"@))]
            &&& closed.1 == seq![command_end(id, end)]
            &&& !s.contains(id) ==> closed.0 == s
        }),
{
    lemma_types_differ();
    insert_opens_one_item(s, id);
    if !s.contains(id) {
        remove_undoes_insert(s, id);
    }
}

/// A command that completes without its start having been seen has an entry
/// opened and closed at once, and the state stays as it was.
pub proof fn completion_without_start_opens_and_closes(
    line: Seq<char>,
    item: Seq<char>,
    id: Seq<char>,
    s: StateView,
)
    requires
        is_completion(line, item),
        is_item(item, id, "command_execution"@),
        !s.contains(id),
    ensures
        read_line(line, s) == (
            s,
            seq![
                command_entry(id, str_field_or_empty(item, "command"@)),
                command_end(id, item),
            ],
        ),
{
    lemma_types_differ();
}

/// The output of a tool closes the entry that its call opened, with the output,
/// and nothing else is reported. Where the call was not open before, the state
/// is then as it was.
pub proof fn output_closes_call(
    call_line: Seq<char>,
    call: Seq<char>,
    id: Seq<char>,
    output_line: Seq<char>,
    output: Seq<char>,
    own_id: Seq<char>,
    s: StateView,
)
    requires
        is_completion(call_line, call),
        is_completion(output_line, output),
        is_item(call, id, "function_call"@),
        is_item(output, own_id, "function_call_output"@),
        output_id(own_id, output) == id,
    ensures
        ({
            let opened = read_line(call_line, s);
            let closed = read_line(output_line, opened.0);
            &&& opened.1 == seq![
                call_entry(id, call_name(call), str_field_or_empty(call, "arguments"@)),
            ]
            &&& closed.1 == seq![
                EventView::CloseEntry {
                    vendor_id: id,
                    exit_code: 0,
                    output_lines: filled_lines(str_field_or_empty(output, "output"@)),
                },
            ]
            &&& !s.contains(id) ==> closed.0 == s
        }),
{
    lemma_types_differ();
    insert_opens_one_item(s, id);
    if !s.contains(id) {
        remove_undoes_insert(s, id);
    }
}

/// The output of a tool whose call was not seen is dropped.
pub proof fn output_without_call_is_dropped(
    line: Seq<char>,
    output: Seq<char>,
    own_id: Seq<char>,
    s: StateView,
)
    requires
        is_completion(line, output),
        is_item(output, own_id, "function_call_output"@),
        !s.contains(output_id(own_id, output)),
    ensures
        read_line(line, s) == (s, Seq::<EventView>::empty()),
{
    lemma_types_differ();
}

/// Whether the line reports a message that is not empty.
pub open spec fn is_message(line: Seq<char>, item: Seq<char>) -> bool {
    &&& is_completion(line, item)
    &&& is_item(item, str_field_or_empty(item, "id"@), "agent_message"@)
    &&& message_text(item).len() > 0
}

/// The entry that the first message of a turn opens.
pub open spec fn message_entry(item: Seq<char>) -> EventView {
    EventView::NewEntry {
        vendor_id: "codex-message"@,
        tool: message_text(item),
        category: "message"@,
        raw_cmd: seq![],
        file_paths: seq![],
    }
}

/// What a later message of a turn is reported as.
pub open spec fn message_addition(item: Seq<char>) -> EventView {
    EventView::AppendToEntry { vendor_id: "codex-message"@, text: message_text(item) }
}

/// The first message of a turn opens an entry, and each later one is appended to
/// the same entry, until the turn is completed; then the next one opens an entry
/// again.
pub proof fn messages_of_a_turn_share_one_entry(
    first_line: Seq<char>,
    first: Seq<char>,
    later_line: Seq<char>,
    later: Seq<char>,
    end_line: Seq<char>,
    s: StateView,
)
    requires
        !s.open_message,
        is_message(first_line, first),
        is_message(later_line, later),
        str_field(end_line, "type"@) == Some("turn.completed"@),
    ensures
        ({
            let a = read_line(first_line, s);
            let b = read_line(later_line, a.0);
            let c = read_line(end_line, b.0);
            let d = read_line(later_line, c.0);
            &&& a == (s.with_message(true), seq![message_entry(first)])
            &&& b == (a.0, seq![message_addition(later)])
            &&& c == (s, seq![EventView::SessionEnded { success: true }])
            &&& d == (a.0, seq![message_entry(later)])
        }),
{
    lemma_types_differ();
}

/// A line whose type is missing or unknown changes nothing.
pub proof fn line_of_unknown_type_changes_nothing(line: Seq<char>, s: StateView)
    requires
        str_field(line, "type"@) matches Some(kind) ==> kind != "item.started"@ && kind
            != "item.completed"@ && kind != "turn.completed"@ && kind != "thread.started"@,
    ensures
        read_line(line, s) == (s, Seq::<EventView>::empty()),
{
}

/// An item without an id changes nothing.
pub proof fn item_without_id_changes_nothing(line: Seq<char>, item: Seq<char>, s: StateView)
    requires
        is_start(line, item) || is_completion(line, item),
        str_field_or_empty(item, "id"@).len() == 0,
    ensures
        read_line(line, s) == (s, Seq::<EventView>::empty()),
{
    lemma_types_differ();
}

/// Only the end of a turn closes the message, and only a message opens it.
pub proof fn message_is_closed_by_turn_end_alone(line: Seq<char>, s: StateView)
    ensures
        s.open_message && !read_line(line, s).0.open_message ==> str_field(line, "type"@) == Some(
            "turn.completed"@,
        ),
        !s.open_message && read_line(line, s).0.open_message ==> read_line(line, s).1.len() == 1
            && entry_id(read_line(line, s).1[0]) == Some("codex-message"@),
{
}

/// The items stay distinct and with an id, whatever line is read.
#[verifier::rlimit(40)]
pub proof fn state_stays_tidy(line: Seq<char>, s: StateView)
    requires
        is_tidy(s),
    ensures
        is_tidy(read_line(line, s).0),
{
    if let Some(item) = object_field(line, "item"@) {
        let id = str_field_or_empty(item, "id"@);
        let other = output_id(id, item);
        items_stay_distinct(s, id);
        items_stay_distinct(s, other);
        lemma_ids_kept(s, id);
        lemma_ids_kept(s, other);
    }
}

proof fn lemma_ids_kept(s: StateView, id: Seq<char>)
    requires
        is_tidy(s),
    ensures
        id.len() > 0 ==> forall|i: int|
            0 <= i < s.insert(id).open_items.len() ==> (#[trigger] s.insert(id).open_items[i]).len()
                > 0,
        forall|i: int|
            0 <= i < s.remove(id).open_items.len() ==> (#[trigger] s.remove(id).open_items[i]).len()
                > 0,
{
    s.open_items.index_of_first_ensures(id);
    if s.contains(id) {
        let at = s.open_items.index_of_first(id)->0;
        let after = s.open_items.remove(at);
        assert forall|i: int| 0 <= i < after.len() implies (#[trigger] after[i]).len() > 0 by {
            assert(after[i] == s.open_items[if i < at {
                i
            } else {
                i + 1
            }]);
        }
    }
}

/// The items stay distinct and with an id, whatever lines are read.
pub proof fn session_stays_tidy(lines: Seq<Seq<u8>>, s: StateView)
    requires
        is_tidy(s),
    ensures
        is_tidy(read_all(lines, s).0),
    decreases lines.len(),
{
    if lines.len() > 0 {
        if !is_blank(lines[0]) {
            state_stays_tidy(line_text(lines[0]), s);
        }
        session_stays_tidy(lines.drop_first(), read_bytes(lines[0], s).0);
    }
}

/// The bytes can still carry the state after a line, where one more item can be
/// counted and the id of the item that the line reports is not too long.
#[verifier::rlimit(40)]
pub proof fn state_keeps_fitting(line: Seq<char>, s: StateView)
    requires
        s.fits(),
        s.open_items.len() < LIMIT,
        object_field(line, "item"@) matches Some(item) ==> encode_utf8(
            str_field_or_empty(item, "id"@),
        ).len() <= LIMIT,
    ensures
        read_line(line, s).0.fits(),
{
    if let Some(item) = object_field(line, "item"@) {
        let id = str_field_or_empty(item, "id"@);
        lemma_removal_fits(s, id);
        lemma_removal_fits(s, output_id(id, item));
    }
}

proof fn lemma_removal_fits(s: StateView, id: Seq<char>)
    requires
        s.fits(),
    ensures
        s.remove(id).fits(),
{
    s.open_items.index_of_first_ensures(id);
    if s.contains(id) {
        let at = s.open_items.index_of_first(id)->0;
        let after = s.open_items.remove(at);
        assert forall|i: int| 0 <= i < after.len() implies encode_utf8(#[trigger] after[i]).len()
            <= LIMIT by {
            assert(after[i] == s.open_items[if i < at {
                i
            } else {
                i + 1
            }]);
        }
    }
}

/// Whatever bytes a line is read with, the bytes that it hands out carry the
/// state after it, where one more item can be counted and the id of the item that
/// the line reports is not too long.
pub proof fn handed_out_bytes_carry_the_state(line: Seq<u8>, state: Seq<u8>)
    requires
        !is_blank(line),
        decode_state(state).open_items.len() < LIMIT,
        object_field(line_text(line), "item"@) matches Some(item) ==> encode_utf8(
            str_field_or_empty(item, "id"@),
        ).len() <= LIMIT,
    ensures
        decode_state(parse_line(line, state).0) == read_line(
            line_text(line),
            decode_state(state),
        ).0,
{
    decoded_state_fits(state);
    state_keeps_fitting(line_text(line), decode_state(state));
    decode_undoes_encode(read_line(line_text(line), decode_state(state)).0);
}

/// Every entry that is opened, closed or appended to has an id.
#[verifier::rlimit(40)]
pub proof fn entries_have_ids(line: Seq<char>, s: StateView)
    requires
        is_tidy(s),
    ensures
        forall|i: int|
            0 <= i < read_line(line, s).1.len() ==> (entry_id(
                #[trigger] read_line(line, s).1[i],
            ) matches Some(id) ==> id.len() > 0),
{
    reveal_strlit("codex-message");
    reveal_strlit("err:");
    if let Some(item) = object_field(line, "item"@) {
        lemma_open_item_has_id(s, output_id(str_field_or_empty(item, "id"@), item));
    }
}

proof fn lemma_open_item_has_id(s: StateView, id: Seq<char>)
    requires
        is_tidy(s),
    ensures
        s.contains(id) ==> id.len() > 0,
{
    if s.contains(id) {
        let i = choose|i: int| 0 <= i < s.open_items.len() && s.open_items[i] == id;
        assert(s.open_items[i].len() > 0);
    }
}

/// Whether the event makes a new entry with the id.
pub open spec fn makes_entry(e: EventView, id: Seq<char>) -> bool {
    e is NewEntry && entry_id(e) == Some(id)
}

/// A line gives at most two events. An entry is closed only where it belongs to
/// an item that was open, or where the same line made it just before; and text
/// is appended only while the message is open, and only to it.
#[verifier::rlimit(40)]
pub proof fn events_of_a_line(line: Seq<char>, s: StateView)
    ensures
        read_line(line, s).1.len() <= 2,
        forall|i: int, id: Seq<char>|
            0 <= i < read_line(line, s).1.len() && #[trigger] closes(read_line(line, s).1[i], id)
                ==> s.contains(id) || (i == 1 && makes_entry(read_line(line, s).1[0], id)),
        forall|i: int|
            0 <= i < read_line(line, s).1.len() && (#[trigger] read_line(
                line,
                s,
            ).1[i]) is AppendToEntry ==> s.open_message && entry_id(read_line(line, s).1[i])
                == Some("codex-message"@),
{
}

/// The categories of commands and tool calls are not those of messages and
/// errors.
proof fn lemma_item_categories(id: Seq<char>, cmd: Seq<char>, name: Seq<char>, args: Seq<char>)
    ensures
        opens(command_entry(id, cmd), id),
        opens(call_entry(id, name, args), id),
{
    command_category_is_known(cmd);
    command_category_is_known(crate::command::command_argument(args));
    reveal_strlit("message");
    reveal_strlit("error");
    reveal_strlit("read");
    reveal_strlit("write");
    reveal_strlit("git");
    reveal_strlit("build");
    reveal_strlit("web");
    reveal_strlit("run");
    reveal_strlit("tool");
    assert("message"@.len() == 7);
    assert("error"@.len() == 5 && "error"@[0] == 'e');
    assert("read"@.len() == 4);
    assert("write"@.len() == 5 && "write"@[0] == 'w');
    assert("git"@.len() == 3);
    assert("build"@.len() == 5 && "build"@[0] == 'b');
    assert("web"@.len() == 3);
    assert("run"@.len() == 3);
    assert("tool"@.len() == 4);
}

/// The open items are those whose entries have been opened and not closed: after
/// a line an item is open if and only if it was open before or the line opened
/// its entry, and the line did not close its entry. The entry of an error is no
/// item, so an item that has the id of one is left out.
#[verifier::rlimit(40)]
pub proof fn open_items_follow_events(line: Seq<char>, s: StateView, id: Seq<char>)
    requires
        is_tidy(s),
        !(error_entry(line) == Some(id) && s.contains(id)),
    ensures
        read_line(line, s).0.contains(id) <==> (s.contains(id) || some_opens(
            read_line(line, s).1,
            id,
        )) && !some_closes(read_line(line, s).1, id),
{
    let step = read_line(line, s);
    if let Some(item) = object_field(line, "item"@) {
        let item_id = str_field_or_empty(item, "id"@);
        let closed = output_id(item_id, item);
        let args = str_field_or_empty(item, "arguments"@);
        lemma_item_categories(
            item_id,
            str_field_or_empty(item, "command"@),
            call_name(item),
            args,
        );
        insert_opens_one_item(s, item_id);
        remove_closes_one_item(s, item_id);
        remove_closes_one_item(s, closed);
    }
    if step.1.len() == 1 {
        assert(some_opens(step.1, id) == opens(step.1[0], id));
        assert(some_closes(step.1, id) == closes(step.1[0], id));
    } else if step.1.len() == 2 {
        assert(some_opens(step.1, id) == (opens(step.1[0], id) || opens(step.1[1], id)));
        assert(some_closes(step.1, id) == (closes(step.1[0], id) || closes(step.1[1], id)));
    }
}

/// A message of at most as many bytes as a label shows can be cut, and so can
/// one that is all ASCII.
pub proof fn short_and_ascii_messages_can_be_cut(text: Seq<char>)
    requires
        encode_utf8(text).len() <= LABEL_BYTES || is_ascii_chars(text),
    ensures
        can_be_cut(text),
{
    let bytes = encode_utf8(text);
    encode_utf8_valid_utf8(text);
    if bytes.len() <= LABEL_BYTES {
        is_char_boundary_start_end_of_seq(bytes);
    } else {
        is_ascii_chars_encode_utf8(text);
        assert(text[LABEL_BYTES as int] <= '\u{7f}');
        assert(bytes[LABEL_BYTES as int] == text[LABEL_BYTES as int] as u8);
        is_char_boundary_iff_not_is_continuation_byte(bytes, LABEL_BYTES as int);
    }
}

/// The label of an error shows the start of its message, as many bytes of it as
/// a label shows and all of a shorter one.
pub proof fn label_shows_start_of_message(text: Seq<char>)
    requires
        can_be_cut(text),
    ensures
        label_part(text).is_prefix_of(text),
        encode_utf8(label_part(text)).len() == label_bytes(text),
        encode_utf8(text).len() <= LABEL_BYTES ==> label_part(text) == text,
{
    let bytes = encode_utf8(text);
    let n = label_bytes(text);
    encode_utf8_valid_utf8(text);
    encode_utf8_decode_utf8(text);
    valid_utf8_split(bytes, n);
    decode_utf8_split(bytes, n);
    assert(bytes.take(n) =~= bytes.subrange(0, n));
    decode_utf8_encode_utf8(bytes.take(n));
    let behind = decode_utf8(bytes.subrange(n, bytes.len() as int));
    assert(text =~= label_part(text) + behind);
    assert(label_part(text) =~= text.subrange(0, label_part(text).len() as int));
    if bytes.len() <= LABEL_BYTES {
        assert(bytes.take(n) =~= bytes);
    }
}

} // verus!
