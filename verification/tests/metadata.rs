use codex_agent::metadata::{agent_metadata, AgentExecutionTier};

#[test]
fn metadata_of_the_launcher() {
    let m = agent_metadata();
    assert_eq!(m.name, "OpenAI Codex");
    assert_eq!(m.executable, "/usr/local/bin/codex");
    assert_eq!(m.execution_tier, AgentExecutionTier::StructuredDirect);
    assert_eq!(
        m.workspace_capabilities,
        vec![
            "speculative-edits",
            "approval-required",
            "utf8-text",
            "create",
            "delete",
            "rename",
            "materialized-copy",
        ]
    );
}

#[test]
fn arguments_of_the_launcher() {
    let m = agent_metadata();
    assert_eq!(
        m.args.join(" "),
        "exec -a never -s workspace-write --skip-git-repo-check --json"
    );
    assert_eq!(
        m.resume_new_args.join(" "),
        "exec --full-auto -s workspace-write --skip-git-repo-check --json {prompt}"
    );
    assert_eq!(
        m.resume_cont_args.join(" "),
        "exec resume --full-auto -s workspace-write --skip-git-repo-check --json {session_id} {prompt}"
    );
}
