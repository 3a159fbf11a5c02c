//! Text as a sequence of characters: runs, searching, trimming and splitting.
//!
//! The specifications speak of `Seq<char>`. The executable functions work on
//! slices of characters, so that every cut falls between two characters.
use vstd::prelude::*;
use vstd::slice::slice_subrange;
use vstd::utf8::encode_utf8;

verus! {

/// The characters of the Unicode property `White_Space`.
pub open spec fn is_whitespace(c: char) -> bool {
    ||| '\u{9}' <= c <= '\u{d}'
    ||| c == '\u{20}'
    ||| c == '\u{85}'
    ||| c == '\u{a0}'
    ||| c == '\u{1680}'
    ||| '\u{2000}' <= c <= '\u{200a}'
    ||| c == '\u{2028}'
    ||| c == '\u{2029}'
    ||| c == '\u{202f}'
    ||| c == '\u{205f}'
    ||| c == '\u{3000}'
}

/// Tests a character for the Unicode property `White_Space`.
pub fn whitespace(c: char) -> (b: bool)
    ensures
        b == is_whitespace(c),
{
    ('\u{9}' <= c && c <= '\u{d}') || c == '\u{20}' || c == '\u{85}' || c == '\u{a0}' || c
        == '\u{1680}' || ('\u{2000}' <= c && c <= '\u{200a}') || c == '\u{2028}' || c == '\u{2029}'
        || c == '\u{202f}' || c == '\u{205f}' || c == '\u{3000}'
}

/// The decimal digits `0` to `9`.
pub open spec fn is_digit(c: char) -> bool {
    '0' <= c <= '9'
}

/// A set of characters that a run can be made of.
#[derive(Clone, Copy)]
pub enum CharClass {
    /// White space.
    White,
    /// Everything but white space.
    Visible,
    /// Everything but one character.
    Except(char),
    /// The decimal digits and the minus sign.
    Numeric,
    /// The two curly braces.
    Brace,
}

impl CharClass {
    /// Whether the class holds the character.
    pub open spec fn has(self, c: char) -> bool {
        match self {
            CharClass::White => is_whitespace(c),
            CharClass::Visible => !is_whitespace(c),
            CharClass::Except(x) => c != x,
            CharClass::Numeric => is_digit(c) || c == '-',
            CharClass::Brace => c == '{' || c == '}',
        }
    }

    /// Whether the class holds the character.
    pub fn holds(self, c: char) -> (b: bool)
        ensures
            b == self.has(c),
    {
        match self {
            CharClass::White => whitespace(c),
            CharClass::Visible => !whitespace(c),
            CharClass::Except(x) => c != x,
            CharClass::Numeric => ('0' <= c && c <= '9') || c == '-',
            CharClass::Brace => c == '{' || c == '}',
        }
    }
}

/// The length of the longest prefix of `s` that is made of `class`.
pub open spec fn leading(s: Seq<char>, class: CharClass) -> nat
    decreases s.len(),
{
    if s.len() > 0 && class.has(s[0]) {
        1 + leading(s.drop_first(), class)
    } else {
        0
    }
}

/// The length of the longest suffix of `s` that is made of `class`.
pub open spec fn trailing(s: Seq<char>, class: CharClass) -> nat
    decreases s.len(),
{
    if s.len() > 0 && class.has(s.last()) {
        1 + trailing(s.drop_last(), class)
    } else {
        0
    }
}

/// The prefix that `leading` measures is made of the class, and the character
/// behind it is not in the class.
pub proof fn lemma_leading(s: Seq<char>, class: CharClass)
    ensures
        leading(s, class) <= s.len(),
        forall|i: int| 0 <= i < leading(s, class) ==> class.has(#[trigger] s[i]),
        leading(s, class) < s.len() ==> !class.has(s[leading(s, class) as int]),
    decreases s.len(),
{
    if s.len() > 0 && class.has(s[0]) {
        lemma_leading(s.drop_first(), class);
        let rest = s.drop_first();
        assert forall|i: int| 0 <= i < leading(s, class) implies class.has(#[trigger] s[i]) by {
            if i > 0 {
                assert(rest[i - 1] == s[i]);
            }
        }
    }
}

/// A prefix made of the class, with a character outside of it or nothing
/// behind it, is the one that `leading` measures.
pub proof fn lemma_leading_is(s: Seq<char>, class: CharClass, n: nat)
    requires
        n <= s.len(),
        forall|i: int| 0 <= i < n ==> class.has(#[trigger] s[i]),
        n < s.len() ==> !class.has(s[n as int]),
    ensures
        leading(s, class) == n,
{
    lemma_leading(s, class);
    let m = leading(s, class);
    if m < n {
        assert(class.has(s[m as int]));
    }
}

/// The suffix that `trailing` measures is made of the class, and the character
/// before it is not in the class.
pub proof fn lemma_trailing(s: Seq<char>, class: CharClass)
    ensures
        trailing(s, class) <= s.len(),
        forall|i: int| s.len() - trailing(s, class) <= i < s.len() ==> class.has(#[trigger] s[i]),
        trailing(s, class) < s.len() ==> !class.has(s[s.len() - trailing(s, class) - 1]),
    decreases s.len(),
{
    if s.len() > 0 && class.has(s.last()) {
        let rest = s.drop_last();
        lemma_trailing(rest, class);
        assert forall|i: int|
            s.len() - trailing(s, class) <= i < s.len() implies class.has(#[trigger] s[i]) by {
            if i < s.len() - 1 {
                assert(rest[i] == s[i]);
            }
        }
    }
}

/// A suffix made of the class, with a character outside of it or nothing
/// before it, is the one that `trailing` measures.
pub proof fn lemma_trailing_is(s: Seq<char>, class: CharClass, n: nat)
    requires
        n <= s.len(),
        forall|i: int| s.len() - n <= i < s.len() ==> class.has(#[trigger] s[i]),
        n < s.len() ==> !class.has(s[s.len() - n - 1]),
    ensures
        trailing(s, class) == n,
{
    lemma_trailing(s, class);
    let m = trailing(s, class);
    if m < n {
        assert(class.has(s[s.len() - m - 1]));
    }
}

/// The place of the first `c` in `s`.
pub open spec fn index_of(s: Seq<char>, c: char) -> Option<nat> {
    let n = leading(s, CharClass::Except(c));
    if n < s.len() {
        Some(n)
    } else {
        None
    }
}

/// The place of the first occurrence of `pattern` in `s`.
pub open spec fn find(s: Seq<char>, pattern: Seq<char>) -> Option<nat>
    decreases s.len(),
{
    if pattern.is_prefix_of(s) {
        Some(0)
    } else if s.len() == 0 {
        None
    } else {
        match find(s.drop_first(), pattern) {
            Some(n) => Some(n + 1),
            None => None,
        }
    }
}

/// Whether `pattern` stands in `s` at the place `i`.
pub open spec fn occurs_at(s: Seq<char>, pattern: Seq<char>, i: int) -> bool {
    0 <= i <= s.len() && pattern.is_prefix_of(s.skip(i))
}

/// `find` gives an occurrence, none stands before it, and it gives one wherever
/// there is one.
pub proof fn lemma_find(s: Seq<char>, pattern: Seq<char>)
    ensures
        find(s, pattern) matches Some(n) ==> occurs_at(s, pattern, n as int) && n + pattern.len()
            <= s.len() && forall|j: int| 0 <= j < n ==> !occurs_at(s, pattern, j),
        find(s, pattern) is None ==> forall|j: int| !occurs_at(s, pattern, j),
    decreases s.len(),
{
    assert(s.skip(0) =~= s);
    if pattern.is_prefix_of(s) {
        assert(occurs_at(s, pattern, 0));
    } else if s.len() == 0 {
        assert forall|j: int| !occurs_at(s, pattern, j) by {
            if j == 0 {
                assert(s.skip(j) =~= s);
            }
        }
    } else {
        let rest = s.drop_first();
        lemma_find(rest, pattern);
        assert forall|j: int| 0 < j <= s.len() implies s.skip(j) == #[trigger] rest.skip(j - 1) by {
            assert(s.skip(j) =~= rest.skip(j - 1));
        }
        match find(rest, pattern) {
            Some(n) => {
                assert(rest.skip(n as int) =~= s.skip(n as int + 1));
                assert(occurs_at(s, pattern, n as int + 1));
                assert forall|j: int| 0 <= j < n + 1 implies !occurs_at(s, pattern, j) by {
                    if j > 0 {
                        assert(!occurs_at(rest, pattern, j - 1));
                        assert(rest.skip(j - 1) == s.skip(j));
                    }
                }
            },
            None => {
                assert forall|j: int| !occurs_at(s, pattern, j) by {
                    if 0 < j <= s.len() {
                        assert(!occurs_at(rest, pattern, j - 1));
                        assert(rest.skip(j - 1) == s.skip(j));
                    }
                }
            },
        }
    }
}

/// An occurrence with none before it is the one that `find` gives.
pub proof fn lemma_find_is(s: Seq<char>, pattern: Seq<char>, n: nat)
    requires
        occurs_at(s, pattern, n as int),
        forall|j: int| 0 <= j < n ==> !occurs_at(s, pattern, j),
    ensures
        find(s, pattern) == Some(n),
{
    lemma_find(s, pattern);
    match find(s, pattern) {
        Some(m) => {
            if m < n {
                assert(!occurs_at(s, pattern, m as int));
            } else if n < m {
                assert(!occurs_at(s, pattern, n as int));
            }
        },
        None => {
            assert(!occurs_at(s, pattern, n as int));
        },
    }
}

/// `s` without the characters of `class` at its start.
pub open spec fn trim_start(s: Seq<char>, class: CharClass) -> Seq<char> {
    s.skip(leading(s, class) as int)
}

/// `s` without the characters of `class` at its end.
pub open spec fn trim_end(s: Seq<char>, class: CharClass) -> Seq<char> {
    s.take(s.len() - trailing(s, class))
}

/// `s` without the characters of `class` at both of its ends.
pub open spec fn trim(s: Seq<char>, class: CharClass) -> Seq<char> {
    trim_end(trim_start(s, class), class)
}

/// What stands behind the last `c` in `s`, or all of `s` where there is no `c`.
pub open spec fn after_last(s: Seq<char>, c: char) -> Seq<char> {
    s.skip(s.len() - trailing(s, CharClass::Except(c)))
}

/// The words of `s`: its longest runs without white space, in order.
pub open spec fn words(s: Seq<char>) -> Seq<Seq<char>>
    decreases s.len(),
{
    let t = trim_start(s, CharClass::White);
    let n = leading(t, CharClass::Visible);
    if 0 < n <= t.len() <= s.len() {
        seq![t.take(n as int)] + words(t.skip(n as int))
    } else {
        seq![]
    }
}

/// The word of `s` at the place `i`, or the empty text where there is none.
pub open spec fn word(s: Seq<char>, i: int) -> Seq<char> {
    if 0 <= i < words(s).len() {
        words(s)[i]
    } else {
        seq![]
    }
}

/// The parts of `s` between its characters `c`, the empty ones among them.
pub open spec fn split(s: Seq<char>, c: char) -> Seq<Seq<char>>
    decreases s.len(),
{
    let n = leading(s, CharClass::Except(c));
    if 0 <= n < s.len() {
        seq![s.take(n as int)] + split(s.skip(n as int + 1), c)
    } else {
        seq![s]
    }
}

/// The text without one carriage return at its end.
pub open spec fn strip_return(s: Seq<char>) -> Seq<char> {
    if s.len() > 0 && s.last() == '\r' {
        s.drop_last()
    } else {
        s
    }
}

/// The lines of `s`. A line ends with a line feed, or with a carriage return
/// and a line feed, which are not part of it; what stands behind the last line
/// feed is a line where it is not empty.
pub open spec fn lines(s: Seq<char>) -> Seq<Seq<char>>
    decreases s.len(),
{
    let n = leading(s, CharClass::Except('\n'));
    if n < s.len() {
        seq![strip_return(s.take(n as int))] + lines(s.skip(n as int + 1))
    } else if s.len() > 0 {
        seq![s]
    } else {
        seq![]
    }
}

/// The lines of `s` that are not empty.
pub open spec fn filled_lines(s: Seq<char>) -> Seq<Seq<char>> {
    lines(s).filter(|line: Seq<char>| line.len() > 0)
}

/// The parts one after another, with `separator` between each two.
pub open spec fn join(parts: Seq<Seq<char>>, separator: Seq<char>) -> Seq<char>
    decreases parts.len(),
{
    if parts.len() == 0 {
        seq![]
    } else if parts.len() == 1 {
        parts[0]
    } else {
        join(parts.drop_last(), separator) + separator + parts.last()
    }
}

/// The first `n` characters of `s`, or all of `s` where it has fewer.
pub open spec fn first_chars(s: Seq<char>, n: nat) -> Seq<char> {
    if n < s.len() {
        s.take(n as int)
    } else {
        s
    }
}

/// Trimming twice is trimming once.
pub proof fn lemma_trim_start_twice(s: Seq<char>, class: CharClass)
    ensures
        trim_start(trim_start(s, class), class) == trim_start(s, class),
{
    lemma_leading(s, class);
    let t = trim_start(s, class);
    lemma_leading_is(t, class, 0);
    assert(t.skip(0) =~= t);
}

/// White space at the start of a text does not change its words.
pub proof fn lemma_words_trim_start(s: Seq<char>)
    ensures
        words(trim_start(s, CharClass::White)) == words(s),
{
    lemma_trim_start_twice(s, CharClass::White);
    lemma_leading(s, CharClass::White);
    let t = trim_start(s, CharClass::White);
    lemma_leading(t, CharClass::Visible);
}

/// An empty line in front of others adds nothing to the lines that are kept, and
/// another line adds itself.
pub proof fn lemma_filled_lines_cons(line: Seq<char>, more: Seq<Seq<char>>)
    ensures
        (seq![line] + more).filter(|l: Seq<char>| l.len() > 0) == (if line.len() > 0 {
            seq![line]
        } else {
            seq![]
        }) + more.filter(|l: Seq<char>| l.len() > 0),
{
    let keep = |l: Seq<char>| l.len() > 0;
    Seq::filter_distributes_over_add(seq![line], more, keep);
    reveal_with_fuel(Seq::filter, 2);
    assert(seq![line].drop_last() =~= seq![]);
    assert(seq![line].filter(keep) =~= if line.len() > 0 {
        seq![line]
    } else {
        seq![]
    });
}

/// Tests two texts for equality.
pub fn same_text(a: &str, b: &str) -> (same: bool)
    ensures
        same == (a@ == b@),
{
    proof {
        vstd::utf8::encode_utf8_decode_utf8(a@);
        vstd::utf8::encode_utf8_decode_utf8(b@);
    }
    let x: &[u8] = a.as_bytes();
    let y: &[u8] = b.as_bytes();
    if x.len() != y.len() {
        return false;
    }
    let mut i: usize = 0;
    while i < x.len()
        invariant
            i <= x@.len(),
            x@.len() == y@.len(),
            x@ == encode_utf8(a@),
            y@ == encode_utf8(b@),
            forall|j: int| 0 <= j < i ==> x@[j] == y@[j],
        decreases x@.len() - i,
    {
        if x[i] != y[i] {
            return false;
        }
        i += 1;
    }
    assert(x@ =~= y@);
    true
}

/// The characters of a text.
pub fn chars_of(s: &str) -> (out: Vec<char>)
    ensures
        out@ == s@,
{
    let mut out: Vec<char> = Vec::new();
    for c in it: s.chars()
        invariant
            it.seq() == s@,
            out@ == s@.take(it.index() as int),
    {
        out.push(c);
    }
    out
}

/// The length of the longest prefix of `s` that is made of `class`.
pub fn leading_run(s: &[char], class: CharClass) -> (n: usize)
    ensures
        n == leading(s@, class),
        n <= s@.len(),
{
    let mut n: usize = 0;
    while n < s.len() && class.holds(s[n])
        invariant
            n <= s@.len(),
            forall|i: int| 0 <= i < n ==> class.has(#[trigger] s@[i]),
        decreases s@.len() - n,
    {
        n += 1;
    }
    proof {
        lemma_leading_is(s@, class, n as nat);
    }
    n
}

/// The length of the longest suffix of `s` that is made of `class`.
pub fn trailing_run(s: &[char], class: CharClass) -> (n: usize)
    ensures
        n == trailing(s@, class),
        n <= s@.len(),
{
    let mut n: usize = 0;
    while n < s.len() && class.holds(s[s.len() - n - 1])
        invariant
            n <= s@.len(),
            forall|i: int| s@.len() - n <= i < s@.len() ==> class.has(#[trigger] s@[i]),
        decreases s@.len() - n,
    {
        n += 1;
    }
    proof {
        lemma_trailing_is(s@, class, n as nat);
    }
    n
}

/// The place of the first `c` in `s`.
pub fn place_of(s: &[char], c: char) -> (place: Option<usize>)
    ensures
        match place {
            Some(n) => n < s.len() && index_of(s@, c) == Some(n as nat),
            None => index_of(s@, c) is None,
        },
{
    let n: usize = leading_run(s, CharClass::Except(c));
    if n < s.len() {
        Some(n)
    } else {
        None
    }
}

/// Tests whether `pattern` stands in `s` at the place `at`.
fn stands_at(s: &[char], at: usize, pattern: &[char]) -> (b: bool)
    requires
        at <= s@.len(),
    ensures
        b == pattern@.is_prefix_of(s@.skip(at as int)),
{
    let len: usize = s.len();
    if pattern.len() > len - at {
        return false;
    }
    let mut i: usize = 0;
    while i < pattern.len()
        invariant
            at <= s@.len() == len,
            i <= pattern@.len() <= s@.len() - at,
            forall|j: int| 0 <= j < i ==> pattern@[j] == s@.skip(at as int)[j],
        decreases pattern@.len() - i,
    {
        if s[at + i] != pattern[i] {
            assert(pattern@[i as int] != s@.skip(at as int).subrange(0, pattern@.len() as int)[i as int]);
            return false;
        }
        i += 1;
    }
    true
}

/// The place of the first occurrence of `pattern` in `s`.
pub fn find_text(s: &[char], pattern: &[char]) -> (place: Option<usize>)
    ensures
        match place {
            Some(n) => n + pattern@.len() <= s@.len() && find(s@, pattern@) == Some(n as nat),
            None => find(s@, pattern@) is None,
        },
{
    let mut i: usize = 0;
    while i < s.len()
        invariant
            i <= s@.len(),
            forall|j: int| 0 <= j < i ==> !occurs_at(s@, pattern@, j),
        decreases s@.len() - i,
    {
        if stands_at(s, i, pattern) {
            proof {
                lemma_find_is(s@, pattern@, i as nat);
                lemma_find(s@, pattern@);
            }
            return Some(i);
        }
        i += 1;
    }
    if stands_at(s, i, pattern) {
        proof {
            lemma_find_is(s@, pattern@, i as nat);
            lemma_find(s@, pattern@);
        }
        return Some(i);
    }
    proof {
        lemma_find(s@, pattern@);
    }
    None
}

/// `s` from the place `n` on.
pub fn skip(s: &[char], n: usize) -> (out: &[char])
    requires
        n <= s@.len(),
    ensures
        out@ == s@.skip(n as int),
{
    slice_subrange(s, n, s.len())
}

/// `s` up to the place `n`.
pub fn take(s: &[char], n: usize) -> (out: &[char])
    requires
        n <= s@.len(),
    ensures
        out@ == s@.take(n as int),
{
    slice_subrange(s, 0, n)
}

/// `s` without the characters of `class` at its start.
pub fn trimmed_start(s: &[char], class: CharClass) -> (out: &[char])
    ensures
        out@ == trim_start(s@, class),
{
    skip(s, leading_run(s, class))
}

/// `s` without the characters of `class` at both of its ends.
pub fn trimmed(s: &[char], class: CharClass) -> (out: &[char])
    ensures
        out@ == trim(s@, class),
{
    let t: &[char] = trimmed_start(s, class);
    take(t, t.len() - trailing_run(t, class))
}

/// What stands behind the last `c` in `s`, or all of `s` where there is no `c`.
pub fn behind_last(s: &[char], c: char) -> (out: &[char])
    ensures
        out@ == after_last(s@, c),
{
    skip(s, s.len() - trailing_run(s, CharClass::Except(c)))
}

/// The first `n` characters of `s`, or all of `s` where it has fewer.
pub fn at_most(s: &[char], n: usize) -> (out: &[char])
    ensures
        out@ == first_chars(s@, n as nat),
{
    if n < s.len() {
        take(s, n)
    } else {
        s
    }
}

/// The text that is made of the given characters.
pub fn string_of(s: &[char]) -> (out: String)
    ensures
        out@ == s@,
{
    let mut out: String = String::new();
    let mut i: usize = 0;
    while i < s.len()
        invariant
            i <= s@.len(),
            out@ == s@.take(i as int),
        decreases s@.len() - i,
    {
        out.push(s[i]);
        assert(s@.take(i + 1) =~= s@.take(i as int).push(s@[i as int]));
        i += 1;
    }
    assert(s@.take(s@.len() as int) =~= s@);
    out
}

/// The two texts one after the other.
pub fn joined(a: &str, b: &str) -> (out: String)
    ensures
        out@ == a@ + b@,
{
    let mut out: String = a.to_owned();
    out.append(b);
    out
}

/// The words of `s`: its longest runs without white space, in order.
pub fn words_of(s: &[char]) -> (out: Vec<String>)
    ensures
        out.deep_view() == words(s@),
{
    let mut out: Vec<String> = Vec::new();
    let mut rest: &[char] = trimmed_start(s, CharClass::White);
    proof {
        lemma_words_trim_start(s@);
        lemma_trim_start_twice(s@, CharClass::White);
        assert(out.deep_view() + words(rest@) =~= words(rest@));
    }
    while rest.len() > 0
        invariant
            words(s@) == out.deep_view() + words(rest@),
            trim_start(rest@, CharClass::White) == rest@,
        decreases rest@.len(),
    {
        proof {
            lemma_leading(rest@, CharClass::White);
            lemma_leading(rest@, CharClass::Visible);
            assert(rest@.len() == rest@.len() - leading(rest@, CharClass::White));
            assert(leading(rest@, CharClass::White) == 0);
        }
        let n: usize = leading_run(rest, CharClass::Visible);
        let ghost before = out.deep_view();
        let head: String = string_of(take(rest, n));
        let ghost text = head@;
        out.push(head);
        let behind: &[char] = skip(rest, n);
        proof {
            assert(out.deep_view() =~= before.push(text));
            lemma_leading(behind@, CharClass::White);
            lemma_words_trim_start(behind@);
            lemma_trim_start_twice(behind@, CharClass::White);
            assert(words(rest@) == seq![text] + words(behind@));
            assert(before + (seq![text] + words(behind@)) =~= before.push(text) + words(behind@));
        }
        rest = trimmed_start(behind, CharClass::White);
    }
    assert(words(rest@) =~= Seq::<Seq<char>>::empty());
    assert(out.deep_view() + words(rest@) =~= out.deep_view());
    out
}

/// The parts of `s` between its characters `c`, the empty ones among them.
pub fn parts_of(s: &[char], c: char) -> (out: Vec<String>)
    ensures
        out.deep_view() == split(s@, c),
{
    let mut out: Vec<String> = Vec::new();
    let mut rest: &[char] = s;
    assert(out.deep_view() + split(rest@, c) =~= split(s@, c));
    loop
        invariant
            out.deep_view() + split(rest@, c) == split(s@, c),
        decreases rest@.len(),
    {
        let ghost before = out.deep_view();
        match place_of(rest, c) {
            Some(n) => {
                let head: String = string_of(take(rest, n));
                let ghost text = head@;
                out.push(head);
                let behind: &[char] = skip(rest, n + 1);
                proof {
                    assert(out.deep_view() =~= before.push(text));
                    assert(before + (seq![text] + split(behind@, c)) =~= before.push(text) + split(
                        behind@,
                        c,
                    ));
                }
                rest = behind;
            },
            None => {
                let last: String = string_of(rest);
                let ghost text = last@;
                out.push(last);
                assert(out.deep_view() =~= before + seq![text]);
                return out;
            },
        }
    }
}

/// The lines of `s` that are not empty.
pub fn filled_lines_of(s: &[char]) -> (out: Vec<String>)
    ensures
        out.deep_view() == filled_lines(s@),
{
    let mut out: Vec<String> = Vec::new();
    let mut rest: &[char] = s;
    assert(out.deep_view() + filled_lines(rest@) =~= filled_lines(s@));
    loop
        invariant
            out.deep_view() + filled_lines(rest@) == filled_lines(s@),
        decreases rest@.len(),
    {
        let ghost before = out.deep_view();
        match place_of(rest, '\n') {
            Some(n) => {
                let mut line: &[char] = take(rest, n);
                if line.len() > 0 && line[line.len() - 1] == '\r' {
                    line = take(line, line.len() - 1);
                }
                let behind: &[char] = skip(rest, n + 1);
                proof {
                    assert(line@ == strip_return(rest@.take(n as int)));
                    lemma_filled_lines_cons(line@, lines(behind@));
                }
                if line.len() > 0 {
                    let text: String = string_of(line);
                    let ghost view = text@;
                    out.push(text);
                    proof {
                        assert(out.deep_view() =~= before.push(view));
                        assert(before + (seq![view] + filled_lines(behind@)) =~= before.push(view)
                            + filled_lines(behind@));
                    }
                }
                rest = behind;
            },
            None => {
                if rest.len() > 0 {
                    let text: String = string_of(rest);
                    let ghost view = text@;
                    out.push(text);
                    proof {
                        assert(out.deep_view() =~= before.push(view));
                        lemma_filled_lines_cons(rest@, seq![]);
                        assert(seq![rest@] + Seq::<Seq<char>>::empty() =~= seq![rest@]);
                    }
                }
                proof {
                    reveal(Seq::filter);
                    assert(out.deep_view() =~= before + filled_lines(rest@));
                }
                return out;
            },
        }
    }
}

/// The parts one after another, with one space between each two.
pub fn joined_by_space(parts: &Vec<String>) -> (out: String)
    ensures
        out@ == join(parts.deep_view(), seq![' ']),
{
    let mut out: String = String::new();
    let mut i: usize = 0;
    let ghost all = parts.deep_view();
    while i < parts.len()
        invariant
            i <= parts@.len(),
            all == parts.deep_view(),
            out@ == join(all.take(i as int), seq![' ']),
        decreases parts@.len() - i,
    {
        if i > 0 {
            out.push(' ');
        }
        out.append(parts[i].as_str());
        proof {
            let longer = all.take(i + 1);
            assert(longer.drop_last() =~= all.take(i as int));
            assert(longer.last() == parts@[i as int]@);
            assert(out@ =~= join(longer, seq![' ']));
        }
        i += 1;
    }
    assert(all.take(all.len() as int) =~= all);
    out
}

/// A trimmed text has no character of the class at either end.
pub proof fn trim_leaves_no_ends(s: Seq<char>, class: CharClass)
    ensures
        trim(s, class).len() > 0 ==> !class.has(trim(s, class)[0]) && !class.has(
            trim(s, class).last(),
        ),
        trim(trim(s, class), class) == trim(s, class),
{
    lemma_leading(s, class);
    let t = trim_start(s, class);
    lemma_trailing(t, class);
    let u = trim(s, class);
    if u.len() > 0 {
        assert(u[0] == t[0]);
    }
    lemma_leading_is(u, class, 0);
    assert(u.skip(0) =~= u);
    lemma_trailing_is(u, class, 0);
    assert(u.take(u.len() as int) =~= u);
}

/// Each word is a text without white space that is not empty.
pub proof fn words_are_visible(s: Seq<char>)
    ensures
        forall|i: int, j: int|
            0 <= i < words(s).len() && 0 <= j < words(s)[i].len() ==> !is_whitespace(
                #[trigger] words(s)[i][j],
            ),
        forall|i: int| 0 <= i < words(s).len() ==> (#[trigger] words(s)[i]).len() > 0,
    decreases s.len(),
{
    let t = trim_start(s, CharClass::White);
    let n = leading(t, CharClass::Visible);
    lemma_leading(s, CharClass::White);
    lemma_leading(t, CharClass::Visible);
    if 0 < n {
        let first = t.take(n as int);
        let later = words(t.skip(n as int));
        words_are_visible(t.skip(n as int));
        assert(words(s) == seq![first] + later);
        assert forall|i: int, j: int|
            0 <= i < words(s).len() && 0 <= j < words(s)[i].len() implies !is_whitespace(
            #[trigger] words(s)[i][j],
        ) by {
            if i == 0 {
                assert(CharClass::Visible.has(t[j]));
            } else {
                assert(words(s)[i] == later[i - 1]);
                assert(!is_whitespace(later[i - 1][j]));
            }
        }
        assert forall|i: int| 0 <= i < words(s).len() implies (#[trigger] words(s)[i]).len() > 0 by {
            if i > 0 {
                assert(words(s)[i] == later[i - 1]);
            }
        }
    }
}

/// No line of a text holds a line feed.
pub proof fn lines_hold_no_line_feed(s: Seq<char>)
    ensures
        forall|i: int| 0 <= i < lines(s).len() ==> !(#[trigger] lines(s)[i]).contains('\n'),
    decreases s.len(),
{
    let n = leading(s, CharClass::Except('\n'));
    lemma_leading(s, CharClass::Except('\n'));
    if n < s.len() {
        let first = strip_return(s.take(n as int));
        let later = lines(s.skip(n as int + 1));
        lines_hold_no_line_feed(s.skip(n as int + 1));
        assert forall|i: int| 0 <= i < lines(s).len() implies !(
        #[trigger] lines(s)[i]).contains('\n') by {
            if i == 0 {
                assert forall|j: int| 0 <= j < first.len() implies first[j] != '\n' by {
                    assert(CharClass::Except('\n').has(s[j]));
                }
            } else {
                assert(lines(s)[i] == later[i - 1]);
            }
        }
    } else if s.len() > 0 {
        assert forall|j: int| 0 <= j < s.len() implies s[j] != '\n' by {
            assert(CharClass::Except('\n').has(s[j]));
        }
    }
}

/// Joining the parts of a text with the character that parted them gives the
/// text back.
pub proof fn join_undoes_split(s: Seq<char>, c: char)
    ensures
        split(s, c).len() > 0,
        join(split(s, c), seq![c]) == s,
    decreases s.len(),
{
    let n = leading(s, CharClass::Except(c));
    lemma_leading(s, CharClass::Except(c));
    if n < s.len() {
        let rest = s.skip(n as int + 1);
        join_undoes_split(rest, c);
        lemma_join_cons(s.take(n as int), split(rest, c), seq![c]);
        assert(s =~= s.take(n as int) + seq![c] + rest);
    }
}

pub proof fn lemma_join_cons(first: Seq<char>, more: Seq<Seq<char>>, separator: Seq<char>)
    requires
        more.len() > 0,
    ensures
        join(seq![first] + more, separator) == first + separator + join(more, separator),
    decreases more.len(),
{
    let all = seq![first] + more;
    assert(all.drop_last() =~= seq![first] + more.drop_last());
    assert(all.last() == more.last());
    if more.len() == 1 {
        assert(all.drop_last() =~= seq![first]);
        assert(join(seq![first], separator) == first);
    } else {
        lemma_join_cons(first, more.drop_last(), separator);
        assert(first + separator + join(more.drop_last(), separator) + separator + more.last()
            =~= first + separator + (join(more.drop_last(), separator) + separator + more.last()));
    }
}

} // verus!
