# codex-agent

Launcher plugin for the OpenAI Codex agent, with a library that is verified with
Verus.

- `src/metadata.rs`: the executable of the agent and its arguments
- `src/parser.rs`: one line of `codex exec --json` to events
- `src/state.rs`: the items that are open between two lines, and their bytes
- `src/command.rs`: the label, the category and the paths of a command or a call
- `src/json.rs`: the fields of a JSON object in a line
- `src/text.rs`: runs, searching, trimming and splitting on characters
- `src/laws.rs`: what holds over several lines
- `src/outside.rs`: the functions of the standard library that the proofs rest on
- `app/`: the plugin as the Basalt host loads it
