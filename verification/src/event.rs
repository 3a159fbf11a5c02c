//! The events that the parser reports to its host.
use vstd::prelude::*;

verus! {

/// One thing that the agent did.
#[derive(Debug, PartialEq, Eq)]
pub enum AgentEvent {
    /// A new entry of the log.
    NewEntry {
        vendor_id: String,
        tool: String,
        category: String,
        raw_cmd: String,
        file_paths: Vec<String>,
    },
    /// An entry has come to its end.
    CloseEntry { vendor_id: String, exit_code: i32, output_lines: Vec<String> },
    /// More text for an entry.
    AppendToEntry { vendor_id: String, text: String },
    /// The session has ended.
    SessionEnded { success: bool },
    /// The id by which the session can be resumed.
    SessionIDAvailable(String),
}

/// The contents of an [`AgentEvent`].
pub enum EventView {
    NewEntry {
        vendor_id: Seq<char>,
        tool: Seq<char>,
        category: Seq<char>,
        raw_cmd: Seq<char>,
        file_paths: Seq<Seq<char>>,
    },
    CloseEntry { vendor_id: Seq<char>, exit_code: i32, output_lines: Seq<Seq<char>> },
    AppendToEntry { vendor_id: Seq<char>, text: Seq<char> },
    SessionEnded { success: bool },
    SessionIDAvailable(Seq<char>),
}

impl DeepView for AgentEvent {
    type V = EventView;

    open spec fn deep_view(&self) -> EventView {
        match *self {
            AgentEvent::NewEntry { vendor_id, tool, category, raw_cmd, file_paths } => {
                EventView::NewEntry {
                    vendor_id: vendor_id@,
                    tool: tool@,
                    category: category@,
                    raw_cmd: raw_cmd@,
                    file_paths: file_paths.deep_view(),
                }
            },
            AgentEvent::CloseEntry { vendor_id, exit_code, output_lines } => {
                EventView::CloseEntry {
                    vendor_id: vendor_id@,
                    exit_code,
                    output_lines: output_lines.deep_view(),
                }
            },
            AgentEvent::AppendToEntry { vendor_id, text } => {
                EventView::AppendToEntry { vendor_id: vendor_id@, text: text@ }
            },
            AgentEvent::SessionEnded { success } => EventView::SessionEnded { success },
            AgentEvent::SessionIDAvailable(id) => EventView::SessionIDAvailable(id@),
        }
    }
}

/// No event.
pub(crate) fn no_events() -> (out: Vec<AgentEvent>)
    ensures
        out.deep_view() == Seq::<EventView>::empty(),
{
    let out: Vec<AgentEvent> = Vec::new();
    assert(out.deep_view() =~= Seq::<EventView>::empty());
    out
}

/// One event.
pub(crate) fn one_event(event: AgentEvent) -> (out: Vec<AgentEvent>)
    ensures
        out.deep_view() == seq![event.deep_view()],
{
    let mut out: Vec<AgentEvent> = Vec::new();
    let ghost view = event.deep_view();
    out.push(event);
    assert(out.deep_view() =~= seq![view]);
    out
}

/// Two events, in order.
pub(crate) fn two_events(first: AgentEvent, second: AgentEvent) -> (out: Vec<AgentEvent>)
    ensures
        out.deep_view() == seq![first.deep_view(), second.deep_view()],
{
    let mut out: Vec<AgentEvent> = Vec::new();
    let ghost view = seq![first.deep_view(), second.deep_view()];
    out.push(first);
    out.push(second);
    assert(out.deep_view() =~= view);
    out
}

/// The contents of an event are those of its fields, each as it is.
pub proof fn contents_are_the_fields(e: AgentEvent)
    ensures
        match (e, e.deep_view()) {
            (
                AgentEvent::NewEntry { vendor_id, tool, category, raw_cmd, file_paths },
                EventView::NewEntry {
                    vendor_id: id,
                    tool: label,
                    category: kind,
                    raw_cmd: text,
                    file_paths: paths,
                },
            ) => {
                &&& id == vendor_id@ && label == tool@ && kind == category@ && text == raw_cmd@
                &&& paths.len() == file_paths.len()
                &&& forall|i: int|
                    0 <= i < paths.len() ==> #[trigger] paths[i] == file_paths[i]@
            },
            (
                AgentEvent::CloseEntry { vendor_id, exit_code, output_lines },
                EventView::CloseEntry { vendor_id: id, exit_code: code, output_lines: lines },
            ) => {
                &&& id == vendor_id@ && code == exit_code
                &&& lines.len() == output_lines.len()
                &&& forall|i: int|
                    0 <= i < lines.len() ==> #[trigger] lines[i] == output_lines[i]@
            },
            (
                AgentEvent::AppendToEntry { vendor_id, text },
                EventView::AppendToEntry { vendor_id: id, text: more },
            ) => id == vendor_id@ && more == text@,
            (
                AgentEvent::SessionEnded { success },
                EventView::SessionEnded { success: ended_well },
            ) => ended_well == success,
            (
                AgentEvent::SessionIDAvailable(id),
                EventView::SessionIDAvailable(text),
            ) => text == id@,
            _ => false,
        },
{
}

} // verus!
