use codex_agent::command::{
    capitalize, classify_function_call, classify_program, codex_classify, codex_file_paths,
    extract_cmd_from_args, extract_inner, looks_like_path, with_head,
};

fn pair(a: &str, b: &str) -> (String, String) {
    (a.to_string(), b.to_string())
}

fn call(tool: &str, category: &str, paths: &[&str]) -> (String, String, Vec<String>) {
    (tool.to_string(), category.to_string(), paths.iter().map(|p| p.to_string()).collect())
}

#[test]
fn quoted_command_is_extracted() {
    assert_eq!(extract_inner("bash -lc 'ls -la'"), "ls -la");
    assert_eq!(extract_inner("bash -lc 'echo '\\''x'\\'''"), "echo '\\''x'\\''");
    assert_eq!(extract_inner("bash -lc ''"), "");
    assert_eq!(extract_inner("a 'b' c 'd' e"), "b' c 'd");
}

#[test]
fn command_without_two_quotes_is_kept() {
    assert_eq!(extract_inner("ls -la"), "ls -la");
    assert_eq!(extract_inner("it's"), "it's");
    assert_eq!(extract_inner(""), "");
}

#[test]
fn reading_programs() {
    for p in ["ls", "find", "cat", "head", "tail", "grep", "rg", "fd", "stat"] {
        assert_eq!(codex_classify(p), pair(&format!("Read {}", p), "read"));
    }
    assert_eq!(codex_classify("bash -lc 'CAT x'"), pair("Read cat", "read"));
}

#[test]
fn writing_programs() {
    for p in ["cp", "mv", "mkdir", "touch", "rm", "tee", "sed", "awk"] {
        assert_eq!(codex_classify(&format!("{} x", p)), pair(&format!("Write {}", p), "write"));
    }
}

#[test]
fn building_and_fetching_programs() {
    for p in ["cargo", "swift", "xcodebuild", "make", "npm", "yarn", "pnpm"] {
        assert_eq!(codex_classify(p), pair(&format!("Build {}", p), "build"));
    }
    assert_eq!(codex_classify("curl http://x"), pair("Fetch curl", "web"));
    assert_eq!(codex_classify("wget"), pair("Fetch wget", "web"));
}

#[test]
fn git_shows_its_subcommand() {
    assert_eq!(codex_classify("bash -lc 'git status -s'"), pair("Git status", "git"));
    assert_eq!(codex_classify("git"), pair("Git", "git"));
    assert_eq!(codex_classify("GIT Log"), pair("Git Log", "git"));
}

#[test]
fn other_programs_are_capitalized() {
    assert_eq!(codex_classify("python3 x.py"), pair("Python3", "run"));
    assert_eq!(codex_classify("./Run.SH"), pair("./run.sh", "run"));
    assert_eq!(codex_classify("   "), pair("Shell", "run"));
    assert_eq!(codex_classify(""), pair("Shell", "run"));
}

#[test]
fn case_outside_ascii() {
    assert_eq!(codex_classify("\u{c9}COLE"), pair("\u{c9}cole", "run"));
    assert_eq!(codex_classify("\u{df}x"), pair("SSx", "run"));
    assert_eq!(capitalize("\u{e9}a"), "\u{c9}a");
    assert_eq!(capitalize("\u{df}a"), "SSa");
}

#[test]
fn first_character_is_replaced() {
    assert_eq!(capitalize("word"), "Word");
    assert_eq!(capitalize(""), "");
    assert_eq!(capitalize("9x"), "9x");
    assert_eq!(with_head("SS", "\u{df}a"), "SSa");
}

#[test]
fn program_decides_in_lower_case_alone() {
    assert_eq!(classify_program("LS", "LS"), pair("LS", "run"));
    assert_eq!(classify_program("git", "a b c"), pair("Git b", "git"));
    assert_eq!(classify_program("", "x"), pair("Shell", "run"));
}

#[test]
fn paths_of_a_command() {
    assert_eq!(
        codex_file_paths("bash -lc 'cat src/lib.rs -n README.md && echo done > out.txt'"),
        vec!["src/lib.rs", "README.md", "out.txt"]
    );
    assert_eq!(codex_file_paths("ls -la /tmp --color=a/b"), vec!["/tmp"]);
    assert!(codex_file_paths("").is_empty());
    assert_eq!(codex_file_paths("for f in rs"), vec!["rs"]);
}

#[test]
fn words_that_look_like_paths() {
    for w in [
        "a/b", "/", "x.swift", "x.rs", "x.ts", "x.js", "x.py", "x.go", "x.c", "x.cpp", "x.h",
        "x.toml", "x.json", "x.yaml", "x.yml", "x.md", "x.txt", ".rs", "c", "a.b.rs", "2>/x",
    ] {
        assert!(looks_like_path(w), "{}", w);
    }
}

#[test]
fn words_that_name_no_file() {
    for w in [
        "-x.rs", "--a/b", "if", "then", "else", "fi", "do", "done", "for", "while", "in", "echo",
        "export", "cd", "||", "&&", "|", ";", ">", ">>", "<", "2>", "x.exe", "rs.", "", "Rs",
    ] {
        assert!(!looks_like_path(w), "{}", w);
    }
}

#[test]
fn shell_tools_show_their_command() {
    for name in ["bash", "run_command", "execute_command"] {
        assert_eq!(
            classify_function_call(name, r#"{"command":"cat a.rs"}"#),
            call("Read cat", "read", &["a.rs"])
        );
    }
    assert_eq!(
        classify_function_call("bash", r#""command":"git log""#),
        call("Git log", "git", &[])
    );
}

#[test]
fn shell_tool_without_command_shows_its_arguments() {
    let long = format!("{} /late", "x".repeat(80));
    assert_eq!(classify_function_call("bash", &long), call(&format!("X{}", "x".repeat(79)), "run", &[]));
    assert_eq!(classify_function_call("bash", "make all"), call("Build make", "build", &[]));
}

#[test]
fn file_tools_show_the_name_of_the_file() {
    for name in ["read_file", "get_file_content", "view"] {
        assert_eq!(
            classify_function_call(name, r#"{"path":"/a/b/c.rs"}"#),
            call("Read c.rs", "read", &["/a/b/c.rs"])
        );
    }
    for name in ["write_file", "create_file", "update_file"] {
        assert_eq!(
            classify_function_call(name, r#"{"file_path":"c.rs"}"#),
            call("Write c.rs", "write", &["c.rs"])
        );
    }
    assert_eq!(classify_function_call("view", "{}"), call("Read ", "read", &[]));
    assert_eq!(classify_function_call("view", r#"{"path":"d/"}"#), call("Read ", "read", &["d/"]));
    assert_eq!(
        classify_function_call("view", r#"{"file_path":"b","path":"a"}"#),
        call("Read a", "read", &["a"])
    );
}

#[test]
fn other_tools_show_their_name() {
    assert_eq!(classify_function_call("web_search", "{}"), call("Web Search", "tool", &[]));
    assert_eq!(classify_function_call("apply__patch_", ""), call("Apply  Patch ", "tool", &[]));
    assert_eq!(classify_function_call("", ""), call("", "tool", &[]));
}

#[test]
fn text_of_a_call() {
    assert_eq!(extract_cmd_from_args(r#"{"command":"ls","path":"x"}"#, "t"), "ls");
    assert_eq!(extract_cmd_from_args(r#"{"path":"x"}"#, "view"), "view x");
    assert_eq!(extract_cmd_from_args(r#"{"query":"q"}"#, "t"), r#"{"query":"q"}"#);
    assert_eq!(extract_cmd_from_args(&"\u{e9}".repeat(130), "t"), "\u{e9}".repeat(120));
}

#[test]
fn written_argument_is_read_back() {
    assert_eq!(
        extract_cmd_from_args(r#"{"cwd":"/x","command":"echo \"a\"\n","t":1}"#, "bash"),
        "echo \"a\"\n"
    );
}

#[test]
fn command_is_shown_alike_inside_a_shell_call() {
    for inner in ["git diff a.rs", "make", "", "cat x/y"] {
        let outer = format!("/bin/zsh -lc '{}'", inner);
        assert_eq!(codex_classify(&outer), codex_classify(inner));
        assert_eq!(codex_file_paths(&outer), codex_file_paths(inner));
    }
}

#[test]
fn braces_around_arguments_do_not_matter() {
    for args in [
        r#""path":"a}b""#,
        r#"{"path":"a}b"}"#,
        r#"{{{"path":"a}b"}}"#,
        r#"{"x":{"path":"a}b"}}"#,
    ] {
        assert_eq!(extract_cmd_from_args(args, "t"), "t a}b");
        assert_eq!(classify_function_call("view", args), call("Read a}b", "read", &["a}b"]));
    }
    assert_eq!(extract_cmd_from_args(r#"{"path":"open}"#, "t"), r#"{"path":"open}"#);
}

#[test]
fn labels_are_not_empty() {
    for cmd in ["", " ", "''", "git", "\u{e9}", "\u{149}", "\u{4e2d}", "-"] {
        assert!(!codex_classify(cmd).0.is_empty(), "{:?}", cmd);
    }
    for name in ["_", "a", "\u{4e2d}", "view", "bash", "create_file"] {
        assert!(!classify_function_call(name, "").0.is_empty(), "{:?}", name);
    }
}
