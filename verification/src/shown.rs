//! What commands and tool calls are shown as, told from their text alone.
//!
//! The programs, tools, shell words and file extensions are written out here
//! once more, so that what is stated does not rest on how they are looked up.
use crate::command::{
    braced, call_label, call_text, capitalized, command_label, command_paths, inner_command,
    inner_command_is_quoted_part, inner_command_without_quotes, is_file_extension, is_path_word,
    path_argument, program_label,
};
use crate::outside::{lowercase, unicode_lowercase, unicode_uppercase, uppercase};
use crate::text::{after_last, lemma_trailing, trailing, word, words, CharClass};
use crate::wording::{
    after_last_is_what_follows, first_chars_are_the_start, is_made_of, is_spacing, is_without,
    is_word, join_parts_by, parted_by, spaced, split_gives_the_parts, trim_takes_class_alone,
    trim_takes_ends_alone, words_are_the_words,
};
use crate::written::{
    holds_no_string, holds_string, is_white, no_string_is_read_unwritten, written_string_is_read,
};
use vstd::prelude::*;
use vstd::utf8::is_ascii_chars;

verus! {

/// Whether the command is `front`, `inner` in single quotes and `back`, without
/// a quote in `front` or in `back`.
pub open spec fn is_shell_call(
    cmd: Seq<char>,
    front: Seq<char>,
    inner: Seq<char>,
    back: Seq<char>,
) -> bool {
    &&& cmd == front + seq!['\''] + inner + seq!['\''] + back
    &&& is_without(front, '\'')
    &&& is_without(back, '\'')
}

/// Whether the command runs `inner`: in single quotes, in a shell call, or as it
/// is, where it does not hold two quotes.
pub open spec fn runs(cmd: Seq<char>, inner: Seq<char>) -> bool {
    ||| exists|front: Seq<char>, back: Seq<char>| #[trigger] is_shell_call(cmd, front, inner, back)
    ||| cmd == inner && forall|i: int, j: int|
        0 <= i < j < cmd.len() ==> cmd[i] != '\'' || cmd[j] != '\''
}

/// The word with its first character in upper case.
pub open spec fn with_capital(w: Seq<char>) -> Seq<char> {
    if w.len() == 0 {
        w
    } else {
        uppercase(w[0]) + w.subrange(1, w.len() as int)
    }
}

/// What a command runs is what stands in its quotes, or all of it.
pub proof fn inner_command_is_what_runs(cmd: Seq<char>, inner: Seq<char>)
    requires
        runs(cmd, inner),
    ensures
        inner_command(cmd) == inner,
{
    if exists|front: Seq<char>, back: Seq<char>| #[trigger]
        is_shell_call(cmd, front, inner, back) {
        let (front, back) = choose|front: Seq<char>, back: Seq<char>| #[trigger]
            is_shell_call(cmd, front, inner, back);
        inner_command_is_quoted_part(front, inner, back);
    } else {
        inner_command_without_quotes(cmd);
    }
}

proof fn lemma_words(inner: Seq<char>, ws: Seq<Seq<char>>)
    requires
        is_made_of(inner, ws),
    ensures
        words(inner) == ws,
        word(inner, 0) == (if ws.len() > 0 {
            ws[0]
        } else {
            seq![]
        }),
        word(inner, 1) == (if ws.len() > 1 {
            ws[1]
        } else {
            seq![]
        }),
        forall|i: int| 0 <= i < ws.len() ==> is_word(#[trigger] ws[i]),
{
    words_are_the_words(inner, ws);
    let gaps = choose|gaps: Seq<Seq<char>>| #[trigger]
        is_spacing(ws, gaps) && inner == spaced(ws, gaps);
    assert(is_spacing(ws, gaps));
}

/// The names of the programs are told apart.
proof fn lemma_programs_differ()
    ensures
        "git"@.len() == 3,
        forall|w: Seq<char>| is_reader(w) ==> !is_writer(w) && w != "git"@ && !is_builder(w)
            && !is_fetcher(w) && w.len() > 0,
        forall|w: Seq<char>| is_writer(w) ==> w != "git"@ && !is_builder(w) && !is_fetcher(w)
            && w.len() > 0,
        !is_builder("git"@) && !is_fetcher("git"@),
        forall|w: Seq<char>| is_builder(w) ==> !is_fetcher(w) && w.len() > 0,
        forall|w: Seq<char>| is_fetcher(w) ==> w.len() > 0,
{
    reveal_strlit("ls");
    reveal_strlit("find");
    reveal_strlit("cat");
    reveal_strlit("head");
    reveal_strlit("tail");
    reveal_strlit("grep");
    reveal_strlit("rg");
    reveal_strlit("fd");
    reveal_strlit("stat");
    reveal_strlit("cp");
    reveal_strlit("mv");
    reveal_strlit("mkdir");
    reveal_strlit("touch");
    reveal_strlit("rm");
    reveal_strlit("tee");
    reveal_strlit("sed");
    reveal_strlit("awk");
    reveal_strlit("git");
    reveal_strlit("cargo");
    reveal_strlit("swift");
    reveal_strlit("xcodebuild");
    reveal_strlit("make");
    reveal_strlit("npm");
    reveal_strlit("yarn");
    reveal_strlit("pnpm");
    reveal_strlit("curl");
    reveal_strlit("wget");
    assert("ls"@.len() == 2 && "ls"@[0] == 'l');
    assert("find"@.len() == 4 && "find"@[0] == 'f');
    assert("cat"@.len() == 3 && "cat"@[0] == 'c');
    assert("head"@.len() == 4 && "head"@[0] == 'h');
    assert("tail"@.len() == 4 && "tail"@[0] == 't');
    assert("grep"@.len() == 4 && "grep"@[0] == 'g');
    assert("rg"@.len() == 2 && "rg"@[0] == 'r' && "rg"@[1] == 'g');
    assert("fd"@.len() == 2 && "fd"@[0] == 'f');
    assert("stat"@.len() == 4 && "stat"@[0] == 's');
    assert("cp"@.len() == 2 && "cp"@[0] == 'c');
    assert("mv"@.len() == 2 && "mv"@[0] == 'm');
    assert("mkdir"@.len() == 5 && "mkdir"@[0] == 'm');
    assert("touch"@.len() == 5 && "touch"@[0] == 't');
    assert("rm"@.len() == 2 && "rm"@[0] == 'r' && "rm"@[1] == 'm');
    assert("tee"@.len() == 3 && "tee"@[0] == 't');
    assert("sed"@.len() == 3 && "sed"@[0] == 's');
    assert("awk"@.len() == 3 && "awk"@[0] == 'a');
    assert("git"@.len() == 3 && "git"@[0] == 'g');
    assert("cargo"@.len() == 5 && "cargo"@[0] == 'c');
    assert("swift"@.len() == 5 && "swift"@[0] == 's');
    assert("xcodebuild"@.len() == 10);
    assert("make"@.len() == 4 && "make"@[0] == 'm');
    assert("npm"@.len() == 3 && "npm"@[0] == 'n');
    assert("yarn"@.len() == 4 && "yarn"@[0] == 'y');
    assert("pnpm"@.len() == 4 && "pnpm"@[0] == 'p');
    assert("curl"@.len() == 4 && "curl"@[0] == 'c');
    assert("wget"@.len() == 4 && "wget"@[0] == 'w');
}

/// The programs whose commands read.
pub open spec fn is_reader(w: Seq<char>) -> bool {
    w == "ls"@ || w == "find"@ || w == "cat"@ || w == "head"@ || w == "tail"@ || w == "grep"@ || w
        == "rg"@ || w == "fd"@ || w == "stat"@
}

/// The programs whose commands write.
pub open spec fn is_writer(w: Seq<char>) -> bool {
    w == "cp"@ || w == "mv"@ || w == "mkdir"@ || w == "touch"@ || w == "rm"@ || w == "tee"@ || w
        == "sed"@ || w == "awk"@
}

/// The programs whose commands build.
pub open spec fn is_builder(w: Seq<char>) -> bool {
    w == "cargo"@ || w == "swift"@ || w == "xcodebuild"@ || w == "make"@ || w == "npm"@ || w
        == "yarn"@ || w == "pnpm"@
}

/// The programs whose commands fetch.
pub open spec fn is_fetcher(w: Seq<char>) -> bool {
    w == "curl"@ || w == "wget"@
}

/// The program alone decides what its command is shown as, whatever the rest of
/// the command is: a reader, a writer, a builder and a fetcher have their own
/// verb and category, another program is shown by its name, with its first
/// character in upper case, and no program as a shell.
pub proof fn program_decides(first: Seq<char>, inner: Seq<char>)
    ensures
        is_reader(first) ==> program_label(first, inner) == ("Read "@ + first, "read"@),
        is_writer(first) ==> program_label(first, inner) == ("Write "@ + first, "write"@),
        is_builder(first) ==> program_label(first, inner) == ("Build "@ + first, "build"@),
        is_fetcher(first) ==> program_label(first, inner) == ("Fetch "@ + first, "web"@),
        first.len() == 0 ==> program_label(first, inner) == ("Shell"@, "run"@),
        first.len() > 0 && !is_reader(first) && !is_writer(first) && !is_builder(first)
            && !is_fetcher(first) && first != "git"@ ==> program_label(first, inner) == (
            uppercase(first[0]) + first.subrange(1, first.len() as int),
            "run"@,
        ),
{
    lemma_programs_differ();
    if first.len() > 0 {
        assert(first.skip(1) =~= first.subrange(1, first.len() as int));
    } else {
        assert(!is_reader(first) && !is_writer(first) && !is_builder(first) && !is_fetcher(first));
    }
}

/// `git` is shown with the second word of its command, which is kept as it is.
pub proof fn git_shows_second_word(inner: Seq<char>, ws: Seq<Seq<char>>)
    requires
        is_made_of(inner, ws),
    ensures
        ws.len() <= 1 ==> program_label("git"@, inner) == ("Git"@, "git"@),
        ws.len() > 1 ==> program_label("git"@, inner) == ("Git "@ + ws[1], "git"@),
{
    lemma_words(inner, ws);
    lemma_programs_differ();
    reveal_strlit("Git");
    reveal_strlit("Git ");
    let none = Seq::<char>::empty();
    assert(is_white(none));
    if ws.len() <= 1 {
        trim_takes_ends_alone(none, "Git"@, seq![' ']);
        assert("Git "@ + none =~= none + "Git"@ + seq![' ']);
    } else {
        assert(is_word(ws[1]));
        let label = "Git "@ + ws[1];
        assert(label[0] == 'G');
        assert(label.last() == ws[1].last());
        assert(ws[1].last() == ws[1][ws[1].len() - 1]);
        trim_takes_ends_alone(none, label, none);
        assert(none + label + none =~= label);
    }
}

/// A category is given to its own programs alone.
pub proof fn category_tells_the_program(first: Seq<char>, inner: Seq<char>)
    ensures
        ({
            let category = program_label(first, inner).1;
            &&& category == "read"@ <==> is_reader(first)
            &&& category == "write"@ <==> is_writer(first)
            &&& category == "git"@ <==> first == "git"@
            &&& category == "build"@ <==> is_builder(first)
            &&& category == "web"@ <==> is_fetcher(first)
        }),
{
    lemma_programs_differ();
    reveal_strlit("read");
    reveal_strlit("write");
    reveal_strlit("git");
    reveal_strlit("build");
    reveal_strlit("web");
    reveal_strlit("run");
    assert("read"@.len() == 4);
    assert("write"@.len() == 5 && "write"@[0] == 'w');
    assert("git"@.len() == 3 && "git"@[0] == 'g');
    assert("build"@.len() == 5 && "build"@[0] == 'b');
    assert("web"@.len() == 3 && "web"@[0] == 'w');
    assert("run"@.len() == 3 && "run"@[0] == 'r');
}

/// The program of a command is the first word of what it runs, in lower case:
/// it alone decides, whatever words follow, and without a word there is none.
pub proof fn first_word_is_the_program(cmd: Seq<char>, inner: Seq<char>, ws: Seq<Seq<char>>)
    requires
        runs(cmd, inner),
        is_made_of(inner, ws),
    ensures
        ws.len() > 0 ==> command_label(cmd) == program_label(lowercase(ws[0]), inner),
        ws.len() == 0 ==> command_label(cmd) == program_label(seq![], inner),
{
    inner_command_is_what_runs(cmd, inner);
    lemma_words(inner, ws);
    assert(lowercase(Seq::<char>::empty()) =~= seq![]);
}

/// A command whose first word is, in lower case, one of these programs is shown
/// as that program, whatever words follow.
pub proof fn first_word_decides(cmd: Seq<char>, inner: Seq<char>, ws: Seq<Seq<char>>)
    requires
        runs(cmd, inner),
        is_made_of(inner, ws),
        ws.len() > 0,
    ensures
        ({
            let first = lowercase(ws[0]);
            &&& is_reader(first) ==> command_label(cmd) == ("Read "@ + first, "read"@)
            &&& is_writer(first) ==> command_label(cmd) == ("Write "@ + first, "write"@)
            &&& is_builder(first) ==> command_label(cmd) == ("Build "@ + first, "build"@)
            &&& is_fetcher(first) ==> command_label(cmd) == ("Fetch "@ + first, "web"@)
            &&& command_label(cmd).1 == "read"@ ==> is_reader(first)
            &&& command_label(cmd).1 == "write"@ ==> is_writer(first)
        }),
{
    first_word_is_the_program(cmd, inner, ws);
    program_decides(lowercase(ws[0]), inner);
    category_tells_the_program(lowercase(ws[0]), inner);
}

/// In lower case an ASCII text has the letters `a` to `z` for `A` to `Z`, place by
/// place, and all else as it was; another text has what the standard library
/// gives.
pub proof fn lower_case_changes_capitals(s: Seq<char>)
    ensures
        is_ascii_chars(s) ==> {
            &&& lowercase(s).len() == s.len()
            &&& forall|i: int|
                0 <= i < s.len() ==> (#[trigger] lowercase(s)[i]) as u32 == (if 65 <= s[i] as u32
                    <= 90 {
                    s[i] as u32 + 32
                } else {
                    s[i] as u32 as int
                })
        },
        !is_ascii_chars(s) ==> lowercase(s) == unicode_lowercase(s),
{
}

/// In upper case an ASCII character is one character, `A` to `Z` for `a` to `z`
/// and itself else; another one is what the standard library gives.
pub proof fn upper_case_changes_letters(c: char)
    ensures
        c as u32 <= 127 ==> uppercase(c).len() == 1 && uppercase(c)[0] as u32 == (if 97 <= c as u32
            <= 122 {
            c as u32 - 32
        } else {
            c as u32 as int
        }),
        c as u32 > 127 ==> uppercase(c) == unicode_uppercase(c),
{
}

/// Capitalizing a word changes its first character alone.
pub proof fn capital_is_first_alone(c: char, rest: Seq<char>)
    ensures
        capitalized(seq![c] + rest) == uppercase(c) + rest,
        capitalized(seq![]) == Seq::<char>::empty(),
{
    assert((seq![c] + rest).skip(1) =~= rest);
}

/// The words of the shell that are never taken for a path.
pub open spec fn is_keyword(w: Seq<char>) -> bool {
    w == "if"@ || w == "then"@ || w == "else"@ || w == "fi"@ || w == "do"@ || w == "done"@ || w
        == "for"@ || w == "while"@ || w == "in"@ || w == "echo"@ || w == "export"@ || w == "cd"@
        || w == "||"@ || w == "&&"@ || w == "|"@ || w == ";"@ || w == ">"@ || w == ">>"@ || w
        == "<"@ || w == "2>"@
}

/// The extensions of the files that are shown.
pub open spec fn is_extension(w: Seq<char>) -> bool {
    w == "swift"@ || w == "rs"@ || w == "ts"@ || w == "js"@ || w == "py"@ || w == "go"@ || w == "c"@
        || w == "cpp"@ || w == "h"@ || w == "toml"@ || w == "json"@ || w == "yaml"@ || w == "yml"@
        || w == "md"@ || w == "txt"@
}

/// Whether the word is `stem`, a dot and the extension.
pub open spec fn is_stem_and_extension(w: Seq<char>, stem: Seq<char>, ext: Seq<char>) -> bool {
    is_extension(ext) && w == stem + seq!['.'] + ext
}

/// Whether the word names a file: it does not start with a minus sign, it is no
/// word of the shell, and it holds a slash, or is an extension, or ends in a dot
/// and an extension.
pub open spec fn names_file(w: Seq<char>) -> bool {
    &&& w.len() == 0 || w[0] != '-'
    &&& !is_keyword(w)
    &&& {
        ||| !is_without(w, '/')
        ||| is_extension(w)
        ||| exists|stem: Seq<char>, ext: Seq<char>| #[trigger] is_stem_and_extension(w, stem, ext)
    }
}

proof fn lemma_extensions()
    ensures
        forall|w: Seq<char>| #[trigger] is_extension(w) ==> is_without(w, '.'),
{
    reveal_strlit("swift");
    reveal_strlit("rs");
    reveal_strlit("ts");
    reveal_strlit("js");
    reveal_strlit("py");
    reveal_strlit("go");
    reveal_strlit("c");
    reveal_strlit("cpp");
    reveal_strlit("h");
    reveal_strlit("toml");
    reveal_strlit("json");
    reveal_strlit("yaml");
    reveal_strlit("yml");
    reveal_strlit("md");
    reveal_strlit("txt");
}

/// A word is taken for a path exactly where it names a file.
pub proof fn path_words_name_files(w: Seq<char>)
    ensures
        is_path_word(w) == names_file(w),
{
    lemma_extensions();
    let ext = after_last(w, '.');
    let n = trailing(w, CharClass::Except('.'));
    lemma_trailing(w, CharClass::Except('.'));
    if w.contains('/') {
        let i = choose|i: int| 0 <= i < w.len() && w[i] == '/';
        assert(!is_without(w, '/'));
    } else {
        assert forall|i: int| 0 <= i < w.len() implies w[i] != '/' by {
            if w[i] == '/' {
                assert(w.contains('/'));
            }
        }
    }
    if is_file_extension(ext) {
        if n == w.len() {
            assert(ext =~= w);
        } else {
            let stem = w.take(w.len() - n - 1);
            assert(w =~= stem + seq!['.'] + ext);
            assert(is_stem_and_extension(w, stem, ext));
        }
    }
    if is_extension(w) {
        after_last_is_what_follows(seq![], '.', w);
    }
    if exists|stem: Seq<char>, e: Seq<char>| #[trigger] is_stem_and_extension(w, stem, e) {
        let (stem, e) = choose|stem: Seq<char>, e: Seq<char>| #[trigger]
            is_stem_and_extension(w, stem, e);
        after_last_is_what_follows(stem, '.', e);
    }
}

proof fn lemma_same_filter(
    s: Seq<Seq<char>>,
    p: spec_fn(Seq<char>) -> bool,
    q: spec_fn(Seq<char>) -> bool,
)
    requires
        forall|w: Seq<char>| #[trigger] p(w) == q(w),
    ensures
        s.filter(p) == s.filter(q),
    decreases s.len(),
{
    reveal(Seq::filter);
    if s.len() > 0 {
        lemma_same_filter(s.drop_last(), p, q);
    }
}

/// The paths of a command are those of its words that name a file, in their
/// order and character for character.
pub proof fn paths_are_the_named_files(cmd: Seq<char>, inner: Seq<char>, ws: Seq<Seq<char>>)
    requires
        runs(cmd, inner),
        is_made_of(inner, ws),
    ensures
        command_paths(cmd) == ws.filter(|w: Seq<char>| names_file(w)),
{
    inner_command_is_what_runs(cmd, inner);
    lemma_words(inner, ws);
    let p = |w: Seq<char>| is_path_word(w);
    let q = |w: Seq<char>| names_file(w);
    assert forall|w: Seq<char>| #[trigger] p(w) == q(w) by {
        path_words_name_files(w);
    }
    lemma_same_filter(ws, p, q);
}

/// The tools that run a command.
pub open spec fn is_shell_tool(name: Seq<char>) -> bool {
    name == "bash"@ || name == "run_command"@ || name == "execute_command"@
}

/// The tools that read one file.
pub open spec fn is_reading_tool(name: Seq<char>) -> bool {
    name == "read_file"@ || name == "get_file_content"@ || name == "view"@
}

/// The tools that write one file.
pub open spec fn is_writing_tool(name: Seq<char>) -> bool {
    name == "write_file"@ || name == "create_file"@ || name == "update_file"@
}

proof fn lemma_tools_differ()
    ensures
        forall|w: Seq<char>| is_shell_tool(w) ==> !is_reading_tool(w) && !is_writing_tool(w),
        forall|w: Seq<char>| is_reading_tool(w) ==> !is_writing_tool(w),
{
    reveal_strlit("bash");
    reveal_strlit("run_command");
    reveal_strlit("execute_command");
    reveal_strlit("read_file");
    reveal_strlit("get_file_content");
    reveal_strlit("view");
    reveal_strlit("write_file");
    reveal_strlit("create_file");
    reveal_strlit("update_file");
    assert("bash"@.len() == 4 && "bash"@[0] == 'b');
    assert("run_command"@.len() == 11 && "run_command"@[0] == 'r');
    assert("execute_command"@.len() == 15);
    assert("read_file"@.len() == 9);
    assert("get_file_content"@.len() == 16);
    assert("view"@.len() == 4 && "view"@[0] == 'v');
    assert("write_file"@.len() == 10);
    assert("create_file"@.len() == 11 && "create_file"@[0] == 'c');
    assert("update_file"@.len() == 11 && "update_file"@[0] == 'u');
}

/// A tool that runs a command is shown as that command, and without a command as
/// the first 80 characters of its arguments.
pub proof fn shell_tool_is_shown_as_command(
    name: Seq<char>,
    args: Seq<char>,
    cmd: Seq<char>,
    start: Seq<char>,
    more: Seq<char>,
)
    requires
        is_shell_tool(name),
    ensures
        holds_string(args, "command"@, cmd) ==> call_label(name, args) == (
            command_label(cmd).0,
            command_label(cmd).1,
            command_paths(cmd),
        ),
        holds_no_string(args, "command"@) && args == start + more && (start.len() == 80
            || start.len() < 80 && more.len() == 0) ==> call_label(name, args) == (
            command_label(start).0,
            command_label(start).1,
            command_paths(start),
        ),
{
    if holds_string(args, "command"@, cmd) {
        written_string_is_read(args, "command"@, cmd);
    }
    if holds_no_string(args, "command"@) {
        no_string_is_read_unwritten(args, "command"@);
        first_chars_are_the_start(start, more, 80);
        if more.len() == 0 {
            assert(start + more =~= start);
        }
    }
}

/// Whether the arguments name the path: as `path`, or as `file_path` where there
/// is no `path`.
pub open spec fn names_path(args: Seq<char>, path: Seq<char>) -> bool {
    ||| holds_string(args, "path"@, path)
    ||| holds_no_string(args, "path"@) && holds_string(args, "file_path"@, path)
    ||| holds_no_string(args, "path"@) && holds_no_string(args, "file_path"@) && path.len() == 0
}

/// Whether `base` is the last part of the path: all of it where it holds no
/// slash, else what stands behind its last slash.
pub open spec fn is_last_part(path: Seq<char>, dir: Seq<char>, base: Seq<char>) -> bool {
    is_without(base, '/') && (path == base || path == dir + seq!['/'] + base)
}

/// A tool on one file is shown as its verb and the last part of the path, and
/// names the path as it was written. Without a path it names none.
pub proof fn file_tool_is_shown_as_file(
    name: Seq<char>,
    args: Seq<char>,
    path: Seq<char>,
    dir: Seq<char>,
    base: Seq<char>,
)
    requires
        names_path(args, path),
        is_last_part(path, dir, base),
    ensures
        is_reading_tool(name) ==> call_label(name, args) == (
            "Read "@ + base,
            "read"@,
            if path.len() == 0 {
                seq![]
            } else {
                seq![path]
            },
        ),
        is_writing_tool(name) ==> call_label(name, args) == (
            "Write "@ + base,
            "write"@,
            if path.len() == 0 {
                seq![]
            } else {
                seq![path]
            },
        ),
{
    lemma_tools_differ();
    lemma_path(args, path);
    after_last_is_what_follows(dir, '/', base);
}

proof fn lemma_path(args: Seq<char>, path: Seq<char>)
    requires
        names_path(args, path),
    ensures
        path_argument(args) == path,
{
    if holds_string(args, "path"@, path) {
        written_string_is_read(args, "path"@, path);
    } else {
        no_string_is_read_unwritten(args, "path"@);
        if holds_string(args, "file_path"@, path) {
            written_string_is_read(args, "file_path"@, path);
        } else {
            no_string_is_read_unwritten(args, "file_path"@);
            assert(path =~= seq![]);
        }
    }
}

/// Any other tool is shown as its name: a space for each underscore, and the
/// first character of each part in upper case. It names no path.
pub proof fn other_tool_is_shown_as_name(parts: Seq<Seq<char>>, args: Seq<char>)
    requires
        parts.len() > 0,
        forall|i: int| 0 <= i < parts.len() ==> is_without(#[trigger] parts[i], '_'),
        ({
            let name = parted_by(parts, '_');
            !is_shell_tool(name) && !is_reading_tool(name) && !is_writing_tool(name)
        }),
    ensures
        call_label(parted_by(parts, '_'), args) == (
            parted_by(parts.map_values(|w: Seq<char>| with_capital(w)), ' '),
            "tool"@,
            Seq::<Seq<char>>::empty(),
        ),
{
    let name = parted_by(parts, '_');
    split_gives_the_parts(parts, '_');
    let shown = parts.map_values(|w: Seq<char>| with_capital(w));
    let titled = parts.map_values(|w: Seq<char>| capitalized(w));
    assert forall|i: int| 0 <= i < parts.len() implies titled[i] == shown[i] by {
        let w = parts[i];
        if w.len() > 0 {
            assert(w.skip(1) =~= w.subrange(1, w.len() as int));
        } else {
            assert(w =~= seq![]);
        }
    }
    assert(titled =~= shown);
    join_parts_by(titled, ' ');
}

/// The braces around the arguments of a call are taken off, however many they
/// are, and one pair is put in their place.
pub proof fn arguments_get_one_pair_of_braces(front: Seq<char>, inner: Seq<char>, back: Seq<char>)
    requires
        forall|i: int| 0 <= i < front.len() ==> #[trigger] front[i] == '{' || front[i] == '}',
        forall|i: int| 0 <= i < back.len() ==> #[trigger] back[i] == '{' || back[i] == '}',
        inner.len() > 0 ==> inner[0] != '{' && inner[0] != '}' && inner.last() != '{'
            && inner.last() != '}',
    ensures
        braced(front + inner + back) == seq!['{'] + inner + seq!['}'],
{
    trim_takes_class_alone(front, inner, back, CharClass::Brace);
}

/// The text of a call is its command as it was written, whatever it holds;
/// without a command, the name of the tool, a space and the path; without both,
/// the first 120 characters of the arguments.
pub proof fn text_of_call_is_its_command(
    name: Seq<char>,
    args: Seq<char>,
    s: Seq<char>,
    start: Seq<char>,
    more: Seq<char>,
)
    ensures
        holds_string(args, "command"@, s) ==> call_text(args, name) == s,
        holds_no_string(args, "command"@) && holds_string(args, "path"@, s) ==> call_text(
            args,
            name,
        ) == name + seq![' '] + s,
        holds_no_string(args, "command"@) && holds_no_string(args, "path"@) && args == start + more
            && (start.len() == 120 || start.len() < 120 && more.len() == 0) ==> call_text(
            args,
            name,
        ) == start,
{
    reveal_strlit(" ");
    assert(" "@ =~= seq![' ']);
    if holds_string(args, "command"@, s) {
        written_string_is_read(args, "command"@, s);
    }
    if holds_no_string(args, "command"@) {
        no_string_is_read_unwritten(args, "command"@);
        if holds_string(args, "path"@, s) {
            written_string_is_read(args, "path"@, s);
        }
        if holds_no_string(args, "path"@) {
            no_string_is_read_unwritten(args, "path"@);
            first_chars_are_the_start(start, more, 120);
            if more.len() == 0 {
                assert(start + more =~= start);
            }
        }
    }
}

} // verus!
