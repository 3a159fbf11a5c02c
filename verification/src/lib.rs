//! The launcher of the OpenAI Codex agent: how the agent is run, and how the
//! lines that `codex exec --json` prints become events.
//!
//! [`parser::agent_parse_line`] reads one line. It keeps no state of its own:
//! what it has to remember it hands out as bytes, and takes back with the next
//! line.

pub mod command;
pub mod complete;
pub mod event;
pub mod json;
pub mod laws;
pub mod metadata;
pub mod outside;
pub mod parser;
pub mod reported;
pub mod shown;
pub mod state;
pub mod stored;
pub mod text;
pub mod wording;
pub mod written;
