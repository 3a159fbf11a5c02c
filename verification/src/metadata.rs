//! How the agent is launched.
use vstd::prelude::*;

verus! {

/// How much the host can rely on what the agent reports.
#[derive(Debug, Clone, Copy, PartialEq, Eq)]
pub enum AgentExecutionTier {
    /// The agent is run directly and reports in a structured form.
    StructuredDirect,
}

/// The executable of the agent, its arguments and its capabilities.
#[derive(Debug, PartialEq, Eq)]
pub struct AgentMetadata {
    pub name: String,
    pub executable: String,
    /// The arguments of a launch without a prompt.
    pub args: Vec<String>,
    /// The arguments of a new session with a prompt.
    pub resume_new_args: Vec<String>,
    /// The arguments that resume a prior session.
    pub resume_cont_args: Vec<String>,
    pub execution_tier: AgentExecutionTier,
    pub workspace_capabilities: Vec<String>,
}

/// The metadata of the OpenAI Codex launcher. In the arguments `{prompt}` and
/// `{session_id}` stand for what the host fills in.
pub fn agent_metadata() -> (out: AgentMetadata)
    ensures
        out.name@ == "OpenAI Codex"@,
        out.executable@ == "/usr/local/bin/codex"@,
        out.args.deep_view() == seq![
            "exec"@,
            "-a"@,
            "never"@,
            "-s"@,
            "workspace-write"@,
            "--skip-git-repo-check"@,
            "--json"@,
        ],
        out.resume_new_args.deep_view() == seq![
            "exec"@,
            "--full-auto"@,
            "-s"@,
            "workspace-write"@,
            "--skip-git-repo-check"@,
            "--json"@,
            "{prompt}"@,
        ],
        out.resume_cont_args.deep_view() == seq![
            "exec"@,
            "resume"@,
            "--full-auto"@,
            "-s"@,
            "workspace-write"@,
            "--skip-git-repo-check"@,
            "--json"@,
            "{session_id}"@,
            "{prompt}"@,
        ],
        out.execution_tier == AgentExecutionTier::StructuredDirect,
        out.workspace_capabilities.deep_view() == seq![
            "speculative-edits"@,
            "approval-required"@,
            "utf8-text"@,
            "create"@,
            "delete"@,
            "rename"@,
            "materialized-copy"@,
        ],
{
    AgentMetadata {
        name: "OpenAI Codex".to_owned(),
        executable: "/usr/local/bin/codex".to_owned(),
        args: vec![
            "exec".to_owned(),
            "-a".to_owned(),
            "never".to_owned(),
            "-s".to_owned(),
            "workspace-write".to_owned(),
            "--skip-git-repo-check".to_owned(),
            "--json".to_owned(),
        ],
        resume_new_args: vec![
            "exec".to_owned(),
            "--full-auto".to_owned(),
            "-s".to_owned(),
            "workspace-write".to_owned(),
            "--skip-git-repo-check".to_owned(),
            "--json".to_owned(),
            "{prompt}".to_owned(),
        ],
        resume_cont_args: vec![
            "exec".to_owned(),
            "resume".to_owned(),
            "--full-auto".to_owned(),
            "-s".to_owned(),
            "workspace-write".to_owned(),
            "--skip-git-repo-check".to_owned(),
            "--json".to_owned(),
            "{session_id}".to_owned(),
            "{prompt}".to_owned(),
        ],
        execution_tier: AgentExecutionTier::StructuredDirect,
        workspace_capabilities: vec![
            "speculative-edits".to_owned(),
            "approval-required".to_owned(),
            "utf8-text".to_owned(),
            "create".to_owned(),
            "delete".to_owned(),
            "rename".to_owned(),
            "materialized-copy".to_owned(),
        ],
    }
}

} // verus!
