//! What a shell command or a tool call is shown as: its label, its category and
//! the files that it names.
use crate::json::{
    braces_change_no_string, escaped, json_str, quoted, str_field, str_field_reads_string,
};
use crate::outside::{lowercase, upper_of, uppercase};
use crate::text::{
    after_last, at_most, behind_last, chars_of, first_chars, index_of, join, join_undoes_split,
    joined, joined_by_space, leading, lemma_leading, lemma_leading_is, lemma_trailing,
    lemma_trailing_is, occurs_at, parts_of, place_of, same_text, skip, split, string_of, take,
    trailing, trailing_run, trim, trim_start, trimmed, word, words, words_of, CharClass,
};
use vstd::prelude::*;

verus! {

/// The command inside a shell call: what stands between the first single quote
/// and the last one behind it, or the whole text where there are no two.
pub open spec fn inner_command(cmd: Seq<char>) -> Seq<char> {
    match index_of(cmd, '\'') {
        Some(start) => {
            let rest = cmd.skip(start as int + 1);
            let n = trailing(rest, CharClass::Except('\''));
            if n < rest.len() {
                rest.take(rest.len() - n - 1)
            } else {
                cmd
            }
        },
        None => cmd,
    }
}

/// The programs that read files.
pub open spec fn reads_files(name: Seq<char>) -> bool {
    ||| name == "ls"@
    ||| name == "find"@
    ||| name == "cat"@
    ||| name == "head"@
    ||| name == "tail"@
    ||| name == "grep"@
    ||| name == "rg"@
    ||| name == "fd"@
    ||| name == "stat"@
}

/// The programs that write files.
pub open spec fn writes_files(name: Seq<char>) -> bool {
    ||| name == "cp"@
    ||| name == "mv"@
    ||| name == "mkdir"@
    ||| name == "touch"@
    ||| name == "rm"@
    ||| name == "tee"@
    ||| name == "sed"@
    ||| name == "awk"@
}

/// The programs that build.
pub open spec fn builds(name: Seq<char>) -> bool {
    ||| name == "cargo"@
    ||| name == "swift"@
    ||| name == "xcodebuild"@
    ||| name == "make"@
    ||| name == "npm"@
    ||| name == "yarn"@
    ||| name == "pnpm"@
}

/// The programs that fetch from the web.
pub open spec fn fetches(name: Seq<char>) -> bool {
    name == "curl"@ || name == "wget"@
}

/// The word with its first character in upper case.
pub open spec fn capitalized(w: Seq<char>) -> Seq<char> {
    if w.len() == 0 {
        seq![]
    } else {
        uppercase(w[0]) + w.skip(1)
    }
}

/// The label and the category of a command whose program is `first`.
pub open spec fn program_label(first: Seq<char>, inner: Seq<char>) -> (Seq<char>, Seq<char>) {
    if reads_files(first) {
        ("Read "@ + first, "read"@)
    } else if writes_files(first) {
        ("Write "@ + first, "write"@)
    } else if first == "git"@ {
        (trim("Git "@ + word(inner, 1), CharClass::White), "git"@)
    } else if builds(first) {
        ("Build "@ + first, "build"@)
    } else if fetches(first) {
        ("Fetch "@ + first, "web"@)
    } else if first.len() == 0 {
        ("Shell"@, "run"@)
    } else {
        (capitalized(first), "run"@)
    }
}

/// The label and the category of a shell command: its first word, in lower case,
/// decides.
pub open spec fn command_label(cmd: Seq<char>) -> (Seq<char>, Seq<char>) {
    let inner = inner_command(cmd);
    program_label(lowercase(word(inner, 0)), inner)
}

/// The words of the shell that name no file.
pub open spec fn is_shell_word(w: Seq<char>) -> bool {
    ||| w == "if"@
    ||| w == "then"@
    ||| w == "else"@
    ||| w == "fi"@
    ||| w == "do"@
    ||| w == "done"@
    ||| w == "for"@
    ||| w == "while"@
    ||| w == "in"@
    ||| w == "echo"@
    ||| w == "export"@
    ||| w == "cd"@
    ||| w == "||"@
    ||| w == "&&"@
    ||| w == "|"@
    ||| w == ";"@
    ||| w == ">"@
    ||| w == ">>"@
    ||| w == "<"@
    ||| w == "2>"@
}

/// The file extensions that mark a word as the name of a file.
pub open spec fn is_file_extension(w: Seq<char>) -> bool {
    ||| w == "swift"@
    ||| w == "rs"@
    ||| w == "ts"@
    ||| w == "js"@
    ||| w == "py"@
    ||| w == "go"@
    ||| w == "c"@
    ||| w == "cpp"@
    ||| w == "h"@
    ||| w == "toml"@
    ||| w == "json"@
    ||| w == "yaml"@
    ||| w == "yml"@
    ||| w == "md"@
    ||| w == "txt"@
}

/// Whether a word of a command is taken for the path of a file: it is no option
/// and no word of the shell, and it holds a slash or ends in a known extension.
pub open spec fn is_path_word(w: Seq<char>) -> bool {
    &&& !(w.len() > 0 && w[0] == '-')
    &&& !is_shell_word(w)
    &&& w.contains('/') || is_file_extension(after_last(w, '.'))
}

/// The paths that a shell command names, in order.
pub open spec fn command_paths(cmd: Seq<char>) -> Seq<Seq<char>> {
    words(inner_command(cmd)).filter(|w: Seq<char>| is_path_word(w))
}

/// The arguments of a tool call between one pair of braces.
pub open spec fn braced(args: Seq<char>) -> Seq<char> {
    seq!['{'] + trim(args, CharClass::Brace) + seq!['}']
}

/// The argument of a tool call that holds a string.
pub open spec fn argument(args: Seq<char>, key: Seq<char>) -> Option<Seq<char>> {
    str_field(args, key)
}

/// The path that a tool call names, or the empty text.
pub open spec fn path_argument(args: Seq<char>) -> Seq<char> {
    match argument(args, "path"@) {
        Some(path) => path,
        None => match argument(args, "file_path"@) {
            Some(path) => path,
            None => seq![],
        },
    }
}

/// The shell command that a tool call runs, or the start of its arguments.
pub open spec fn command_argument(args: Seq<char>) -> Seq<char> {
    match argument(args, "command"@) {
        Some(cmd) => cmd,
        None => first_chars(args, 80),
    }
}

/// The tools that run a shell command.
pub open spec fn runs_command(name: Seq<char>) -> bool {
    name == "bash"@ || name == "run_command"@ || name == "execute_command"@
}

/// The tools that read a file.
pub open spec fn reads_file(name: Seq<char>) -> bool {
    name == "read_file"@ || name == "get_file_content"@ || name == "view"@
}

/// The tools that write a file.
pub open spec fn writes_file(name: Seq<char>) -> bool {
    name == "write_file"@ || name == "create_file"@ || name == "update_file"@
}

/// The path alone, or nothing where it is empty.
pub open spec fn path_list(path: Seq<char>) -> Seq<Seq<char>> {
    if path.len() == 0 {
        seq![]
    } else {
        seq![path]
    }
}

/// The name of a tool as words: its parts between underscores, each with its
/// first character in upper case, with spaces between them.
pub open spec fn tool_title(name: Seq<char>) -> Seq<char> {
    join(split(name, '_').map_values(|w: Seq<char>| capitalized(w)), seq![' '])
}

/// The label, the category and the paths of a tool call.
pub open spec fn call_label(name: Seq<char>, args: Seq<char>) -> (
    Seq<char>,
    Seq<char>,
    Seq<Seq<char>>,
) {
    let path = path_argument(args);
    if runs_command(name) {
        let cmd = command_argument(args);
        (command_label(cmd).0, command_label(cmd).1, command_paths(cmd))
    } else if reads_file(name) {
        ("Read "@ + after_last(path, '/'), "read"@, path_list(path))
    } else if writes_file(name) {
        ("Write "@ + after_last(path, '/'), "write"@, path_list(path))
    } else {
        (tool_title(name), "tool"@, seq![])
    }
}

/// The text that a tool call is shown as: its command, or its name and its path,
/// or the start of its arguments.
pub open spec fn call_text(args: Seq<char>, name: Seq<char>) -> Seq<char> {
    match argument(args, "command"@) {
        Some(cmd) => cmd,
        None => match argument(args, "path"@) {
            Some(path) => name + " "@ + path,
            None => first_chars(args, 120),
        },
    }
}

/// The command inside a shell call such as `bash -lc 'ls'`.
pub fn extract_inner(cmd: &str) -> (out: String)
    ensures
        out@ == inner_command(cmd@),
{
    let text: Vec<char> = chars_of(cmd);
    match place_of(text.as_slice(), '\'') {
        Some(start) => {
            let rest: &[char] = skip(text.as_slice(), start + 1);
            let n: usize = trailing_run(rest, CharClass::Except('\''));
            if n < rest.len() {
                string_of(take(rest, rest.len() - n - 1))
            } else {
                cmd.to_owned()
            }
        },
        None => cmd.to_owned(),
    }
}

/// The word with `head` in the place of its first character.
pub fn with_head(head: &str, word: &str) -> (out: String)
    requires
        word@.len() > 0,
    ensures
        out@ == head@ + word@.skip(1),
{
    let text: Vec<char> = chars_of(word);
    joined(head, string_of(skip(text.as_slice(), 1)).as_str())
}

/// A text that starts with a visible character is not trimmed away.
proof fn lemma_trim_keeps_visible(s: Seq<char>)
    requires
        s.len() > 0,
        !CharClass::White.has(s[0]),
    ensures
        trim(s, CharClass::White).len() > 0,
{
    lemma_leading_is(s, CharClass::White, 0);
    assert(s.skip(0) =~= s);
    lemma_trailing(s, CharClass::White);
    if trailing(s, CharClass::White) == s.len() {
        assert(CharClass::White.has(s[0]));
    }
}

/// The word with its first character in upper case.
pub fn capitalize(word: &str) -> (out: String)
    ensures
        out@ == capitalized(word@),
        word@.len() > 0 ==> out@.len() > 0,
{
    let text: Vec<char> = chars_of(word);
    if text.len() == 0 {
        String::new()
    } else {
        let head: String = upper_of(text[0]);
        with_head(head.as_str(), word)
    }
}

/// The label, which is never empty, and the category of a command whose program
/// is `first`.
pub fn classify_program(first: &str, inner: &str) -> (out: (String, String))
    ensures
        out.0@ == program_label(first@, inner@).0,
        out.1@ == program_label(first@, inner@).1,
        out.0@.len() > 0,
{
    proof {
        reveal_strlit("Read ");
        reveal_strlit("Write ");
        reveal_strlit("Build ");
        reveal_strlit("Fetch ");
        reveal_strlit("Shell");
    }
    if same_text(first, "ls") || same_text(first, "find") || same_text(first, "cat") || same_text(
        first,
        "head",
    ) || same_text(first, "tail") || same_text(first, "grep") || same_text(first, "rg")
        || same_text(first, "fd") || same_text(first, "stat") {
        (joined("Read ", first), "read".to_owned())
    } else if same_text(first, "cp") || same_text(first, "mv") || same_text(first, "mkdir")
        || same_text(first, "touch") || same_text(first, "rm") || same_text(first, "tee")
        || same_text(first, "sed") || same_text(first, "awk") {
        (joined("Write ", first), "write".to_owned())
    } else if same_text(first, "git") {
        let text: Vec<char> = chars_of(inner);
        let all: Vec<String> = words_of(text.as_slice());
        let sub: String = if all.len() > 1 {
            all[1].clone()
        } else {
            String::new()
        };
        assert(sub@ =~= word(inner@, 1)) by {
            if all.len() > 1 {
                assert(all.deep_view()[1] == all@[1]@);
            }
        }
        let label: Vec<char> = chars_of(joined("Git ", sub.as_str()).as_str());
        proof {
            reveal_strlit("Git ");
            assert(label@[0] == 'G');
            lemma_trim_keeps_visible(label@);
        }
        (string_of(trimmed(label.as_slice(), CharClass::White)), "git".to_owned())
    } else if same_text(first, "cargo") || same_text(first, "swift") || same_text(
        first,
        "xcodebuild",
    ) || same_text(first, "make") || same_text(first, "npm") || same_text(first, "yarn")
        || same_text(first, "pnpm") {
        (joined("Build ", first), "build".to_owned())
    } else if same_text(first, "curl") || same_text(first, "wget") {
        (joined("Fetch ", first), "web".to_owned())
    } else if first.is_empty() {
        ("Shell".to_owned(), "run".to_owned())
    } else {
        (capitalize(first), "run".to_owned())
    }
}

/// The label, which is never empty, and the category of a shell command.
pub fn codex_classify(cmd: &str) -> (out: (String, String))
    ensures
        out.0@ == command_label(cmd@).0,
        out.1@ == command_label(cmd@).1,
        out.0@.len() > 0,
{
    let inner: String = extract_inner(cmd);
    let text: Vec<char> = chars_of(inner.as_str());
    let all: Vec<String> = words_of(text.as_slice());
    let first: String = if all.len() > 0 {
        all[0].clone()
    } else {
        String::new()
    };
    assert(first@ =~= word(inner@, 0)) by {
        if all.len() > 0 {
            assert(all.deep_view()[0] == all@[0]@);
        }
    }
    let lower: String = first.as_str().to_lowercase();
    classify_program(lower.as_str(), inner.as_str())
}

/// Tells whether a word of a command is taken for the path of a file.
pub fn looks_like_path(token: &str) -> (b: bool)
    ensures
        b == is_path_word(token@),
{
    let text: Vec<char> = chars_of(token);
    if text.len() > 0 && text[0] == '-' {
        return false;
    }
    if same_text(token, "if") || same_text(token, "then") || same_text(token, "else") || same_text(
        token,
        "fi",
    ) || same_text(token, "do") || same_text(token, "done") || same_text(token, "for") || same_text(
        token,
        "while",
    ) || same_text(token, "in") || same_text(token, "echo") || same_text(token, "export")
        || same_text(token, "cd") || same_text(token, "||") || same_text(token, "&&") || same_text(
        token,
        "|",
    ) || same_text(token, ";") || same_text(token, ">") || same_text(token, ">>") || same_text(
        token,
        "<",
    ) || same_text(token, "2>") {
        return false;
    }
    match place_of(text.as_slice(), '/') {
        Some(n) => {
            proof {
                lemma_leading(token@, CharClass::Except('/'));
                assert(token@[n as int] == '/');
            }
            return true;
        },
        None => {
            proof {
                lemma_leading(token@, CharClass::Except('/'));
                assert(!token@.contains('/')) by {
                    if token@.contains('/') {
                        let i = choose|i: int| 0 <= i < token@.len() && token@[i] == '/';
                        assert(CharClass::Except('/').has(token@[i]));
                    }
                }
            }
        },
    }
    let tail: String = string_of(behind_last(text.as_slice(), '.'));
    let ext: &str = tail.as_str();
    same_text(ext, "swift") || same_text(ext, "rs") || same_text(ext, "ts") || same_text(ext, "js")
        || same_text(ext, "py") || same_text(ext, "go") || same_text(ext, "c") || same_text(
        ext,
        "cpp",
    ) || same_text(ext, "h") || same_text(ext, "toml") || same_text(ext, "json") || same_text(
        ext,
        "yaml",
    ) || same_text(ext, "yml") || same_text(ext, "md") || same_text(ext, "txt")
}

/// The paths that a shell command names, in order.
pub fn codex_file_paths(cmd: &str) -> (out: Vec<String>)
    ensures
        out.deep_view() == command_paths(cmd@),
{
    let inner: String = extract_inner(cmd);
    let text: Vec<char> = chars_of(inner.as_str());
    let all: Vec<String> = words_of(text.as_slice());
    let ghost ws = all.deep_view();
    let ghost keep = |w: Seq<char>| is_path_word(w);
    let mut out: Vec<String> = Vec::new();
    let mut i: usize = 0;
    proof {
        reveal(Seq::filter);
        assert(out.deep_view() =~= ws.take(0).filter(keep));
    }
    while i < all.len()
        invariant
            i <= all@.len(),
            ws == all.deep_view(),
            keep == (|w: Seq<char>| is_path_word(w)),
            out.deep_view() == ws.take(i as int).filter(keep),
        decreases all@.len() - i,
    {
        let ghost before = out.deep_view();
        proof {
            reveal(Seq::filter);
            assert(ws.take(i + 1).drop_last() =~= ws.take(i as int));
            assert(ws.take(i + 1).last() == all@[i as int]@);
        }
        if looks_like_path(all[i].as_str()) {
            out.push(all[i].clone());
            assert(out.deep_view() =~= before.push(all@[i as int]@));
        }
        i += 1;
    }
    assert(ws.take(ws.len() as int) =~= ws);
    out
}

/// The arguments of a tool call between one pair of braces.
fn rebrace(args_raw: &str) -> (out: String)
    ensures
        out@ == braced(args_raw@),
{
    let text: Vec<char> = chars_of(args_raw);
    let inner: String = string_of(trimmed(text.as_slice(), CharClass::Brace));
    let mut out: String = String::new();
    out.push('{');
    out.append(inner.as_str());
    out.push('}');
    assert(out@ =~= braced(args_raw@));
    out
}

/// The path that a tool call names, or the empty text.
fn path_in(args_raw: &str) -> (out: String)
    ensures
        out@ == path_argument(args_raw@),
{
    let object: String = rebrace(args_raw);
    proof {
        braced_holds_same_arguments(args_raw@, "path"@);
        braced_holds_same_arguments(args_raw@, "file_path"@);
    }
    match json_str(object.as_str(), "path") {
        Some(path) => path,
        None => match json_str(object.as_str(), "file_path") {
            Some(path) => path,
            None => String::new(),
        },
    }
}

/// The first `n` characters of a text.
fn start_of(s: &str, n: usize) -> (out: String)
    ensures
        out@ == first_chars(s@, n as nat),
{
    let text: Vec<char> = chars_of(s);
    string_of(at_most(text.as_slice(), n))
}

/// The label, with its verb in front, and the paths of a tool call on one file.
fn file_call(verb: &str, args_raw: &str) -> (out: (String, Vec<String>))
    ensures
        out.0@ == verb@ + after_last(path_argument(args_raw@), '/'),
        out.1.deep_view() == path_list(path_argument(args_raw@)),
{
    let path: String = path_in(args_raw);
    let text: Vec<char> = chars_of(path.as_str());
    let name: String = string_of(behind_last(text.as_slice(), '/'));
    let mut paths: Vec<String> = Vec::new();
    let ghost view = path@;
    if !path.as_str().is_empty() {
        paths.push(path);
    }
    assert(paths.deep_view() =~= path_list(view));
    (joined(verb, name.as_str()), paths)
}

/// The name of a tool as words.
fn title_of(name: &str) -> (out: String)
    ensures
        out@ == tool_title(name@),
        name@.len() > 0 ==> out@.len() > 0,
{
    let text: Vec<char> = chars_of(name);
    let parts: Vec<String> = parts_of(text.as_slice(), '_');
    let ghost views = parts.deep_view();
    let ghost title = |w: Seq<char>| capitalized(w);
    let mut titled: Vec<String> = Vec::new();
    let mut i: usize = 0;
    while i < parts.len()
        invariant
            i <= parts@.len(),
            views == parts.deep_view(),
            title == (|w: Seq<char>| capitalized(w)),
            titled.deep_view() == views.take(i as int).map_values(title),
            forall|j: int|
                0 <= j < i && views[j].len() > 0 ==> (#[trigger] titled.deep_view()[j]).len() > 0,
        decreases parts@.len() - i,
    {
        let ghost before = titled.deep_view();
        let part: String = capitalize(parts[i].as_str());
        assert(views[i as int] == parts@[i as int]@);
        titled.push(part);
        i += 1;
        proof {
            assert(titled.deep_view() =~= before.push(capitalized(parts@[i - 1]@)));
            assert(titled.deep_view() =~= views.take(i as int).map_values(title));
        }
    }
    proof {
        assert(views.take(views.len() as int) =~= views);
        if name@.len() > 0 {
            let n = leading(name@, CharClass::Except('_'));
            join_undoes_split(name@, '_');
            if n < name@.len() {
                join_undoes_split(name@.skip(n as int + 1), '_');
            }
            if views.len() > 1 {
                assert(join(titled.deep_view(), seq![' ']).len() > 0);
            } else if views.len() == 1 {
                assert(views[0] == name@);
                assert(titled.deep_view()[0].len() > 0);
            }
        }
    }
    joined_by_space(&titled)
}

/// The label, the category and the paths of a tool call. The label is empty only
/// where the name is.
pub fn classify_function_call(name: &str, args_raw: &str) -> (out: (String, String, Vec<String>))
    ensures
        out.0@ == call_label(name@, args_raw@).0,
        out.1@ == call_label(name@, args_raw@).1,
        out.2.deep_view() == call_label(name@, args_raw@).2,
        name@.len() > 0 ==> out.0@.len() > 0,
{
    proof {
        reveal_strlit("Read ");
        reveal_strlit("Write ");
    }
    if same_text(name, "bash") || same_text(name, "run_command") || same_text(
        name,
        "execute_command",
    ) {
        let object: String = rebrace(args_raw);
        proof {
            braced_holds_same_arguments(args_raw@, "command"@);
        }
        let cmd: String = match json_str(object.as_str(), "command") {
            Some(c) => c,
            None => start_of(args_raw, 80),
        };
        let (tool, category): (String, String) = codex_classify(cmd.as_str());
        let paths: Vec<String> = codex_file_paths(cmd.as_str());
        (tool, category, paths)
    } else if same_text(name, "read_file") || same_text(name, "get_file_content") || same_text(
        name,
        "view",
    ) {
        let (tool, paths): (String, Vec<String>) = file_call("Read ", args_raw);
        (tool, "read".to_owned(), paths)
    } else if same_text(name, "write_file") || same_text(name, "create_file") || same_text(
        name,
        "update_file",
    ) {
        let (tool, paths): (String, Vec<String>) = file_call("Write ", args_raw);
        (tool, "write".to_owned(), paths)
    } else {
        let paths: Vec<String> = Vec::new();
        assert(paths.deep_view() =~= seq![]);
        (title_of(name), "tool".to_owned(), paths)
    }
}

/// The text that a tool call is shown as.
pub fn extract_cmd_from_args(args_raw: &str, tool_name: &str) -> (out: String)
    ensures
        out@ == call_text(args_raw@, tool_name@),
{
    let object: String = rebrace(args_raw);
    proof {
        braced_holds_same_arguments(args_raw@, "command"@);
        braced_holds_same_arguments(args_raw@, "path"@);
    }
    match json_str(object.as_str(), "command") {
        Some(cmd) => cmd,
        None => match json_str(object.as_str(), "path") {
            Some(path) => joined(joined(tool_name, " ").as_str(), path.as_str()),
            None => start_of(args_raw, 120),
        },
    }
}

/// A command in single quotes is the inner command, whatever quotes it holds
/// itself, where no quote stands before it or behind it.
pub proof fn inner_command_is_quoted_part(front: Seq<char>, inner: Seq<char>, back: Seq<char>)
    requires
        !front.contains('\''),
        !back.contains('\''),
    ensures
        inner_command(front + seq!['\''] + inner + seq!['\''] + back) == inner,
{
    let cmd = front + seq!['\''] + inner + seq!['\''] + back;
    let rest = inner + seq!['\''] + back;
    assert forall|i: int| 0 <= i < front.len() implies CharClass::Except('\'').has(
        #[trigger] cmd[i],
    ) by {
        assert(cmd[i] == front[i]);
    }
    assert(cmd[front.len() as int] == '\'');
    lemma_leading_is(cmd, CharClass::Except('\''), front.len());
    assert(cmd.skip(front.len() as int + 1) =~= rest);
    assert forall|i: int| rest.len() - back.len() <= i < rest.len() implies CharClass::Except(
        '\'',
    ).has(#[trigger] rest[i]) by {
        assert(rest[i] == back[i - inner.len() - 1]);
    }
    lemma_trailing_is(rest, CharClass::Except('\''), back.len());
    assert(rest.take(inner.len() as int) =~= inner);
}

/// A command without two single quotes is its own inner command.
pub proof fn inner_command_without_quotes(cmd: Seq<char>)
    requires
        forall|i: int, j: int| 0 <= i < j < cmd.len() ==> cmd[i] != '\'' || cmd[j] != '\'',
    ensures
        inner_command(cmd) == cmd,
{
    lemma_leading(cmd, CharClass::Except('\''));
    if let Some(start) = index_of(cmd, '\'') {
        let rest = cmd.skip(start as int + 1);
        assert forall|i: int| 0 <= i < rest.len() implies CharClass::Except('\'').has(
            #[trigger] rest[i],
        ) by {
            assert(rest[i] == cmd[start as int + 1 + i]);
            assert(cmd[start as int] == '\'');
        }
        lemma_trailing_is(rest, CharClass::Except('\''), rest.len());
    }
}

/// A command is shown alike with and without a shell call around it.
pub proof fn shell_call_is_looked_through(front: Seq<char>, inner: Seq<char>, back: Seq<char>)
    requires
        !front.contains('\''),
        !inner.contains('\''),
        !back.contains('\''),
    ensures
        command_label(front + seq!['\''] + inner + seq!['\''] + back) == command_label(inner),
        command_paths(front + seq!['\''] + inner + seq!['\''] + back) == command_paths(inner),
{
    inner_command_is_quoted_part(front, inner, back);
    assert forall|i: int, j: int| 0 <= i < j < inner.len() implies inner[i] != '\'' || inner[j]
        != '\'' by {
        if inner[i] == '\'' {
            assert(inner.contains('\''));
        }
    }
    inner_command_without_quotes(inner);
}

/// The paths of a command are those of its words that look like one, and no
/// others.
pub proof fn paths_are_words(cmd: Seq<char>, w: Seq<char>)
    ensures
        command_paths(cmd).contains(w) <==> words(inner_command(cmd)).contains(w) && is_path_word(w),
{
    let ws = words(inner_command(cmd));
    let keep = |x: Seq<char>| is_path_word(x);
    let kept = ws.filter(keep);
    lemma_filter_members(ws, keep);
    if kept.contains(w) {
        let i = choose|i: int| 0 <= i < kept.len() && kept[i] == w;
        assert(ws.contains(kept[i]));
    }
    if ws.contains(w) && is_path_word(w) {
        let i = choose|i: int| 0 <= i < ws.len() && ws[i] == w;
        assert(keep(ws[i]));
        assert(kept.contains(ws[i]));
    }
}

proof fn lemma_filter_members(s: Seq<Seq<char>>, keep: spec_fn(Seq<char>) -> bool)
    ensures
        forall|i: int|
            0 <= i < s.filter(keep).len() ==> s.contains(#[trigger] s.filter(keep)[i]) && keep(
                s.filter(keep)[i],
            ),
        forall|i: int| 0 <= i < s.len() && keep(s[i]) ==> s.filter(keep).contains(#[trigger] s[i]),
    decreases s.len(),
{
    reveal(Seq::filter);
    if s.len() > 0 {
        let less = s.drop_last();
        lemma_filter_members(less, keep);
        let kept = s.filter(keep);
        assert forall|i: int| 0 <= i < kept.len() implies s.contains(#[trigger] kept[i]) && keep(
            kept[i],
        ) by {
            if i < less.filter(keep).len() {
                assert(kept[i] == less.filter(keep)[i]);
                let j = choose|j: int| 0 <= j < less.len() && less[j] == kept[i];
                assert(s[j] == kept[i]);
            } else {
                assert(kept[i] == s[s.len() - 1]);
            }
        }
        assert forall|i: int| 0 <= i < s.len() && keep(s[i]) implies kept.contains(
            #[trigger] s[i],
        ) by {
            if i < s.len() - 1 {
                assert(less[i] == s[i]);
                let j = choose|j: int|
                    0 <= j < less.filter(keep).len() && less.filter(keep)[j] == s[i];
                assert(kept[j] == s[i]);
            } else {
                assert(kept[kept.len() - 1] == s[i]);
            }
        }
    }
}

/// A command is put into one of six categories.
pub proof fn command_category_is_known(cmd: Seq<char>)
    ensures
        ({
            let category = command_label(cmd).1;
            ||| category == "read"@
            ||| category == "write"@
            ||| category == "git"@
            ||| category == "build"@
            ||| category == "web"@
            ||| category == "run"@
        }),
{
}

/// The arguments hold the same strings whatever braces stand around them.
pub proof fn braced_holds_same_arguments(args: Seq<char>, key: Seq<char>)
    ensures
        str_field(braced(args), key) == argument(args, key),
{
    lemma_leading(args, CharClass::Brace);
    let n = leading(args, CharClass::Brace) as int;
    let t = trim_start(args, CharClass::Brace);
    lemma_trailing(t, CharClass::Brace);
    let m = t.len() - trailing(t, CharClass::Brace);
    let front = args.take(n);
    let body = t.take(m);
    let back = t.skip(m);
    assert forall|i: int| 0 <= i < back.len() implies CharClass::Brace.has(#[trigger] back[i]) by {
        assert(back[i] == t[m + i]);
    }
    assert(args =~= front + body + back);
    braces_change_no_string(front, body, back, key);
    braces_change_no_string(seq!['{'], body, seq!['}'], key);
}

/// A string argument is read as it was written, where its quoted name stands
/// nowhere before; the braces around the arguments may be there or not.
pub proof fn argument_reads_string(
    front: Seq<char>,
    key: Seq<char>,
    white: Seq<char>,
    value: Seq<char>,
    rest: Seq<char>,
)
    requires
        forall|i: int| 0 <= i < white.len() ==> CharClass::White.has(#[trigger] white[i]),
        forall|j: int|
            0 <= j < front.len() ==> !occurs_at(
                front + quoted(key) + seq![':'] + white + (quoted(escaped(value)) + rest),
                quoted(key),
                j,
            ),
    ensures
        ({
            let args = front + quoted(key) + seq![':'] + white + (quoted(escaped(value)) + rest);
            &&& argument(args, key) == Some(value)
            &&& str_field(braced(args), key) == Some(value)
        }),
{
    let args = front + quoted(key) + seq![':'] + white + (quoted(escaped(value)) + rest);
    str_field_reads_string(front, key, white, value, rest);
    braced_holds_same_arguments(args, key);
}

} // verus!
