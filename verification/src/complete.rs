//! That the laws leave nothing out: every text is one of those that they speak
//! of.
use crate::json::{balance, decimal_digits, digits_value, is_digits};
use crate::reported::{has_visible_ends, is_layout};
use crate::shown::{is_last_part, is_shell_call, runs};
use crate::text::{
    find, is_digit, is_whitespace, leading, lemma_find, lemma_leading, lemma_trailing, occurs_at,
    trailing, CharClass,
};
use crate::wording::{
    can_be_ended, ended_lines, is_made_of, is_spacing, is_without, is_word, parted_by, spaced,
};
use crate::written::{
    can_be_written, can_write, ends_after_name, has_no_value, has_value, holds_integer,
    holds_no_integer, holds_no_object, holds_no_string, holds_object, holds_string, in_quotes,
    is_closed_object, is_literal, is_numeric, is_open_literal, is_padded, is_run, is_white, spells,
    spells_none, stands, starts_with_integer, starts_with_string, starts_without_integer,
    starts_without_string, writes, written_char, written_chars, Spelling,
};
use vstd::prelude::*;

verus! {

proof fn lemma_stands_where_found(s: Seq<char>, part: Seq<char>, i: int)
    ensures
        stands(s, part, i) == occurs_at(s, part, i),
{
    if 0 <= i && i + part.len() <= s.len() {
        assert(s.skip(i).subrange(0, part.len() as int) =~= s.subrange(i, i + part.len()));
    }
}

/// A text has a value for a name, or it has none.
pub proof fn value_is_there_or_not(json: Seq<char>, key: Seq<char>)
    ensures
        has_no_value(json, key) || exists|value: Seq<char>| #[trigger]
            has_value(json, key, value),
{
    let name = in_quotes(key);
    lemma_find(json, name);
    assert forall|j: int| stands(json, name, j) == occurs_at(json, name, j) by {
        lemma_stands_where_found(json, name, j);
    }
    if let Some(n) = find(json, name) {
        let front = json.take(n as int);
        let behind = json.skip(n as int + name.len());
        assert(stands(json, name, n as int));
        assert(json =~= front + name + behind);
        lemma_leading(behind, CharClass::Except(':'));
        let g = leading(behind, CharClass::Except(':')) as int;
        let gap = behind.take(g);
        assert forall|i: int| 0 <= i < gap.len() implies gap[i] != ':' by {
            assert(CharClass::Except(':').has(behind[i]));
        }
        if g == behind.len() {
            assert(gap =~= behind);
            assert(ends_after_name(json, key, front, behind));
        } else {
            let after = behind.skip(g + 1);
            lemma_leading(after, CharClass::White);
            let w = leading(after, CharClass::White) as int;
            let white = after.take(w);
            let value = after.skip(w);
            assert(behind[g] == ':');
            assert(json =~= front + name + gap + seq![':'] + white + value);
            assert forall|i: int| 0 <= i < white.len() implies is_whitespace(
                #[trigger] white[i],
            ) by {
                assert(CharClass::White.has(after[i]));
            }
            assert(writes(json, key, front, gap, white, value));
            assert(has_value(json, key, value));
        }
    }
}

/// Whether the text is that of a literal behind its opening quote.
spec fn is_body(text: Seq<char>, s: Seq<char>, spellings: Seq<Spelling>, rest: Seq<char>) -> bool {
    can_write(s, spellings) && text == written_chars(s, spellings) + seq!['"'] + rest
}

/// Whether the text is that of an open literal behind its opening quote.
spec fn is_open_body(text: Seq<char>, s: Seq<char>, spellings: Seq<Spelling>) -> bool {
    &&& can_write(s, spellings)
    &&& text == written_chars(s, spellings) || text == written_chars(s, spellings) + seq!['\\']
}

spec fn is_closed_body(text: Seq<char>) -> bool {
    exists|s: Seq<char>, spellings: Seq<Spelling>, rest: Seq<char>| #[trigger]
        is_body(text, s, spellings, rest)
}

spec fn is_unclosed_body(text: Seq<char>) -> bool {
    exists|s: Seq<char>, spellings: Seq<Spelling>| #[trigger] is_open_body(text, s, spellings)
}

proof fn lemma_body_cons(c: char, spelling: Spelling, text: Seq<char>)
    requires
        can_be_written(c, spelling),
        is_closed_body(text) || is_unclosed_body(text),
    ensures
        is_closed_body(written_char(c, spelling) + text) || is_unclosed_body(
            written_char(c, spelling) + text,
        ),
{
    let all = written_char(c, spelling) + text;
    if is_closed_body(text) {
        let (s, spellings, rest) = choose|
            s: Seq<char>,
            spellings: Seq<Spelling>,
            rest: Seq<char>,
        | #[trigger]
            is_body(text, s, spellings, rest);
        lemma_write_cons(c, spelling, s, spellings);
        assert(all =~= written_chars(seq![c] + s, seq![spelling] + spellings) + seq!['"'] + rest);
        assert(is_body(all, seq![c] + s, seq![spelling] + spellings, rest));
    } else {
        let (s, spellings) = choose|s: Seq<char>, spellings: Seq<Spelling>| #[trigger]
            is_open_body(text, s, spellings);
        lemma_write_cons(c, spelling, s, spellings);
        let more = written_chars(seq![c] + s, seq![spelling] + spellings);
        if text == written_chars(s, spellings) {
            assert(all =~= more);
        } else {
            assert(all =~= more + seq!['\\']);
        }
        assert(is_open_body(all, seq![c] + s, seq![spelling] + spellings));
    }
}

proof fn lemma_write_cons(c: char, spelling: Spelling, s: Seq<char>, spellings: Seq<Spelling>)
    requires
        can_be_written(c, spelling),
        can_write(s, spellings),
    ensures
        can_write(seq![c] + s, seq![spelling] + spellings),
        written_chars(seq![c] + s, seq![spelling] + spellings) == written_char(c, spelling)
            + written_chars(s, spellings),
{
    let t = seq![c] + s;
    let more = seq![spelling] + spellings;
    assert(t.drop_first() =~= s);
    assert(more.drop_first() =~= spellings);
    assert forall|i: int| 0 <= i < t.len() implies can_be_written(#[trigger] t[i], more[i]) by {
        if i > 0 {
            assert(can_be_written(s[i - 1], spellings[i - 1]));
        }
    }
}

proof fn lemma_body(text: Seq<char>)
    ensures
        is_closed_body(text) || is_unclosed_body(text),
    decreases text.len(),
{
    let none = Seq::<char>::empty();
    let nothing = Seq::<Spelling>::empty();
    if text.len() == 0 {
        assert(text =~= written_chars(none, nothing));
        assert(is_open_body(text, none, nothing));
    } else if text[0] == '"' {
        let rest = text.skip(1);
        assert(text =~= written_chars(none, nothing) + seq!['"'] + rest);
        assert(is_body(text, none, nothing, rest));
    } else if text[0] == '\\' && text.len() == 1 {
        assert(text =~= written_chars(none, nothing) + seq!['\\']);
        assert(is_open_body(text, none, nothing));
    } else if text[0] == '\\' {
        let (c, spelling) = if text[1] == 'n' {
            ('\n', Spelling::Letter)
        } else if text[1] == 't' {
            ('\t', Spelling::Letter)
        } else if text[1] == 'r' {
            ('\r', Spelling::Letter)
        } else {
            (text[1], Spelling::Slashed)
        };
        lemma_body(text.skip(2));
        lemma_body_cons(c, spelling, text.skip(2));
        assert(text =~= written_char(c, spelling) + text.skip(2));
    } else {
        lemma_body(text.skip(1));
        lemma_body_cons(text[0], Spelling::Plain, text.skip(1));
        assert(text =~= written_char(text[0], Spelling::Plain) + text.skip(1));
    }
}

/// A field holds a string, or it holds none.
pub proof fn string_is_there_or_not(json: Seq<char>, key: Seq<char>)
    ensures
        holds_no_string(json, key) || exists|s: Seq<char>| #[trigger] holds_string(json, key, s),
{
    value_is_there_or_not(json, key);
    if !has_no_value(json, key) {
        let value = choose|value: Seq<char>| #[trigger] has_value(json, key, value);
        if value.len() > 0 && value[0] == '"' {
            let text = value.skip(1);
            lemma_body(text);
            assert(value =~= seq!['"'] + text);
            if is_closed_body(text) {
                let (s, spellings, rest) = choose|
                    s: Seq<char>,
                    spellings: Seq<Spelling>,
                    rest: Seq<char>,
                | #[trigger]
                    is_body(text, s, spellings, rest);
                let body = written_chars(s, spellings);
                assert(seq!['"'] + (body + seq!['"'] + rest) =~= in_quotes(body) + rest);
                assert(is_literal(value, s, spellings, rest));
                assert(starts_with_string(value, s));
                assert(holds_string(json, key, s));
            } else {
                let (s, spellings) = choose|s: Seq<char>, spellings: Seq<Spelling>| #[trigger]
                    is_open_body(text, s, spellings);
                let body = written_chars(s, spellings);
                assert(seq!['"'] + (body + seq!['\\']) =~= seq!['"'] + body + seq!['\\']);
                assert(is_open_literal(value, s, spellings));
                assert(starts_without_string(value));
            }
        }
    }
}

/// The length of the start of the text that is made of zeros.
spec fn zeros_of(s: Seq<char>) -> nat
    decreases s.len(),
{
    if s.len() > 1 && s[0] == '0' {
        1 + zeros_of(s.drop_first())
    } else {
        0
    }
}

proof fn lemma_zeros_of(s: Seq<char>)
    requires
        is_digits(s),
    ensures
        zeros_of(s) < s.len(),
        forall|i: int| 0 <= i < zeros_of(s) ==> s[i] == '0',
        s.len() - zeros_of(s) == 1 || s[zeros_of(s) as int] != '0',
    decreases s.len(),
{
    if s.len() > 1 && s[0] == '0' {
        let more = s.drop_first();
        assert forall|i: int| 0 <= i < more.len() implies is_digit(
            #[trigger] more[i],
        ) by {
            assert(is_digit(s[i + 1]));
        }
        lemma_zeros_of(more);
        assert forall|i: int| 0 <= i < zeros_of(s) implies s[i] == '0' by {
            if i > 0 {
                assert(more[i - 1] == '0');
            }
        }
    }
}

proof fn lemma_digits_are_decimal(s: Seq<char>)
    requires
        is_digits(s),
        s.len() == 1 || s[0] != '0',
    ensures
        decimal_digits(digits_value(s)) == s,
        s[0] != '0' ==> digits_value(s) > 0,
    decreases s.len(),
{
    let last = s.last();
    let n = digits_value(s);
    assert(is_digit(last));
    let digit = (last as nat - '0' as nat) as nat;
    assert(digit < 10);
    assert(('0' as u32 + digit) as char == last);
    if s.len() == 1 {
        assert(s.drop_last() =~= seq![]);
        assert(digits_value(s.drop_last()) == 0);
        assert(s =~= seq![last]);
    } else {
        let less = s.drop_last();
        assert forall|i: int| 0 <= i < less.len() implies is_digit(
            #[trigger] less[i],
        ) by {
            assert(is_digit(s[i]));
        }
        assert(less[0] == s[0]);
        lemma_digits_are_decimal(less);
        assert(n == digits_value(less) * 10 + digit);
        assert(n / 10 == digits_value(less));
        assert(n % 10 == digit);
        assert(s =~= less + seq![last]);
    }
}

/// Digits and minus signs spell an integer, or none.
pub proof fn run_spells_or_not(run: Seq<char>)
    requires
        forall|i: int| 0 <= i < run.len() ==> is_numeric(#[trigger] run[i]),
    ensures
        spells_none(run) || exists|n: int| #[trigger] spells(run, n),
{
    if !spells_none(run) {
        let negative = run[0] == '-';
        let digits = if negative {
            run.skip(1)
        } else {
            run
        };
        if negative && run.len() == 1 {
            assert(run =~= seq!['-']);
        }
        assert forall|i: int| 0 <= i < digits.len() implies is_digit(
            #[trigger] digits[i],
        ) by {
            if negative {
                assert(is_numeric(run[i + 1]));
            } else {
                assert(is_numeric(run[i]));
            }
        }
        lemma_zeros_of(digits);
        let k = zeros_of(digits) as int;
        let zeros = digits.take(k);
        let d = digits.skip(k);
        assert forall|i: int| 0 <= i < d.len() implies is_digit(#[trigger] d[i]) by {
            assert(is_digit(digits[i + k]));
        }
        lemma_digits_are_decimal(d);
        assert(digits =~= zeros + d);
        let size = digits_value(d) as int;
        if negative {
            assert(run =~= seq!['-'] + digits);
            assert(seq!['-'] + (zeros + d) =~= seq!['-'] + zeros + d);
            assert(is_padded(run, zeros, -size));
            assert(spells(run, -size));
        } else {
            assert(is_padded(run, zeros, size));
            assert(spells(run, size));
        }
    }
}

/// A field holds an integer, or it holds none.
pub proof fn integer_is_there_or_not(json: Seq<char>, key: Seq<char>)
    ensures
        holds_no_integer(json, key) || exists|n: int| #[trigger] holds_integer(json, key, n),
{
    value_is_there_or_not(json, key);
    if !has_no_value(json, key) {
        let value = choose|value: Seq<char>| #[trigger] has_value(json, key, value);
        lemma_leading(value, CharClass::Numeric);
        let k = leading(value, CharClass::Numeric) as int;
        let run = value.take(k);
        let rest = value.skip(k);
        assert(value =~= run + rest);
        assert forall|i: int| 0 <= i < run.len() implies is_numeric(#[trigger] run[i]) by {
            assert(CharClass::Numeric.has(value[i]));
        }
        assert(rest.len() > 0 ==> rest[0] == value[k]);
        assert(is_run(value, run, rest));
        run_spells_or_not(run);
        if spells_none(run) {
            assert(starts_without_integer(value));
        } else {
            let n = choose|n: int| #[trigger] spells(run, n);
            assert(starts_with_integer(value, n));
            assert(holds_integer(json, key, n));
        }
    }
}

/// Whether the braces of the text are all closed at this place and not before.
spec fn closes_at(value: Seq<char>, m: int) -> bool {
    &&& 0 < m <= value.len()
    &&& balance(value.take(m)) == 0
    &&& forall|j: int| 0 < j < m ==> balance(#[trigger] value.take(j)) > 0
}

proof fn lemma_closes(value: Seq<char>, k: int)
    requires
        value.len() > 0,
        value[0] == '{',
        0 < k <= value.len(),
    ensures
        (forall|j: int| 0 < j <= k ==> balance(#[trigger] value.take(j)) > 0) || exists|m: int|
            #[trigger] closes_at(value, m),
    decreases k,
{
    let part = value.take(k);
    assert(part.drop_last() =~= value.take(k - 1));
    if k == 1 {
        assert(value.take(0) =~= seq![]);
        assert(balance(value.take(0)) == 0);
        assert(part.last() == '{');
    } else {
        lemma_closes(value, k - 1);
        if forall|j: int| 0 < j <= k - 1 ==> balance(#[trigger] value.take(j)) > 0 {
            assert(balance(value.take(k - 1)) > 0);
            if balance(part) <= 0 {
                assert(closes_at(value, k));
            }
        }
    }
}

/// A field holds an object, or it holds none.
pub proof fn object_is_there_or_not(json: Seq<char>, key: Seq<char>)
    ensures
        holds_no_object(json, key) || exists|object: Seq<char>| #[trigger]
            holds_object(json, key, object),
{
    value_is_there_or_not(json, key);
    if !has_no_value(json, key) {
        let value = choose|value: Seq<char>| #[trigger] has_value(json, key, value);
        if value.len() > 0 && value[0] == '{' {
            lemma_closes(value, value.len() as int);
            if exists|m: int| #[trigger] closes_at(value, m) {
                let m = choose|m: int| #[trigger] closes_at(value, m);
                let object = value.take(m);
                assert forall|j: int| 0 < j < object.len() implies balance(
                    #[trigger] object.take(j),
                ) > 0 by {
                    assert(object.take(j) =~= value.take(j));
                }
                assert(is_closed_object(object));
                assert(object =~= value.subrange(0, object.len() as int));
                assert(holds_object(json, key, object));
            }
        }
    }
}

/// Every command runs something.
pub proof fn every_command_runs(cmd: Seq<char>)
    ensures
        exists|inner: Seq<char>| #[trigger] runs(cmd, inner),
{
    let class = CharClass::Except('\'');
    lemma_leading(cmd, class);
    let a = leading(cmd, class) as int;
    let front = cmd.take(a);
    assert forall|i: int| 0 <= i < a implies cmd[i] != '\'' by {
        assert(class.has(cmd[i]));
    }
    if a == cmd.len() {
        assert(runs(cmd, cmd));
    } else {
        let rest = cmd.skip(a + 1);
        lemma_trailing(rest, class);
        let n = trailing(rest, class) as int;
        assert forall|i: int| rest.len() - n <= i < rest.len() implies rest[i] != '\'' by {
            assert(class.has(rest[i]));
        }
        if n == rest.len() {
            assert forall|i: int, j: int| 0 <= i < j < cmd.len() implies cmd[i] != '\'' || cmd[j]
                != '\'' by {
                if i >= a {
                    assert(rest[j - a - 1] == cmd[j]);
                }
            }
            assert(runs(cmd, cmd));
        } else {
            let inner = rest.take(rest.len() - n - 1);
            let back = rest.skip(rest.len() - n);
            assert forall|i: int| 0 <= i < back.len() implies back[i] != '\'' by {
                assert(class.has(rest[rest.len() - n + i]));
            }
            assert(cmd[a] == '\'');
            assert(rest[rest.len() - n - 1] == '\'');
            assert(cmd =~= front + seq!['\''] + inner + seq!['\''] + back);
            assert(is_shell_call(cmd, front, inner, back));
            assert(runs(cmd, inner));
        }
    }
}

/// Every text is made of words.
pub proof fn every_text_is_made_of_words(s: Seq<char>)
    ensures
        exists|ws: Seq<Seq<char>>| #[trigger] is_made_of(s, ws),
    decreases s.len(),
{
    lemma_leading(s, CharClass::White);
    let w = leading(s, CharClass::White) as int;
    let white = s.take(w);
    let t = s.skip(w);
    assert forall|i: int| 0 <= i < white.len() implies is_whitespace(#[trigger] white[i]) by {
        assert(CharClass::White.has(s[i]));
    }
    assert(is_white(white));
    if t.len() == 0 {
        let ws = Seq::<Seq<char>>::empty();
        let gaps = seq![white];
        assert(s =~= spaced(ws, gaps));
        assert(is_spacing(ws, gaps));
        assert(is_made_of(s, ws));
    } else {
        assert(t[0] == s[w]);
        lemma_leading(t, CharClass::Visible);
        let v = leading(t, CharClass::Visible) as int;
        if v == 0 {
            assert(!CharClass::Visible.has(t[0]));
        }
        let first = t.take(v);
        let rest = t.skip(v);
        assert forall|i: int| 0 <= i < first.len() implies !is_whitespace(#[trigger] first[i]) by {
            assert(CharClass::Visible.has(t[i]));
        }
        assert(is_word(first));
        every_text_is_made_of_words(rest);
        let more = choose|ws: Seq<Seq<char>>| #[trigger] is_made_of(rest, ws);
        let between = choose|gaps: Seq<Seq<char>>| #[trigger]
            is_spacing(more, gaps) && rest == spaced(more, gaps);
        assert(rest.len() > 0 ==> rest[0] == t[v]);
        lemma_spacing_cons(white, first, more, between);
        let ws = seq![first] + more;
        let gaps = seq![white] + between;
        assert(s =~= white + first + rest);
        assert(is_spacing(ws, gaps) && s == spaced(ws, gaps));
        assert(is_made_of(s, ws));
    }
}

proof fn lemma_spacing_cons(
    white: Seq<char>,
    first: Seq<char>,
    more: Seq<Seq<char>>,
    between: Seq<Seq<char>>,
)
    requires
        is_white(white),
        is_word(first),
        is_spacing(more, between),
        spaced(more, between).len() > 0 ==> is_whitespace(spaced(more, between)[0]),
    ensures
        is_spacing(seq![first] + more, seq![white] + between),
        spaced(seq![first] + more, seq![white] + between) == white + first + spaced(more, between),
{
    let ws = seq![first] + more;
    let gaps = seq![white] + between;
    assert(ws.drop_first() =~= more);
    assert(gaps.drop_first() =~= between);
    assert forall|i: int| 0 <= i < ws.len() implies is_word(#[trigger] ws[i]) by {
        if i > 0 {
            assert(is_word(more[i - 1]));
        }
    }
    assert forall|i: int| 0 <= i < gaps.len() implies is_white(#[trigger] gaps[i]) by {
        if i > 0 {
            assert(is_white(between[i - 1]));
        }
    }
    assert forall|i: int| 0 < i < ws.len() implies (#[trigger] gaps[i]).len() > 0 by {
        assert(gaps[i] == between[i - 1]);
        if i == 1 {
            if between[0].len() == 0 {
                assert(is_word(more[0]));
                assert(spaced(more, between)[0] == more[0][0]);
            }
        }
    }
}

/// Every text is laid out in lines.
pub proof fn every_text_has_lines(s: Seq<char>)
    ensures
        exists|ls: Seq<Seq<char>>, with_returns: Seq<bool>, last: Seq<char>| #[trigger]
            is_layout(s, ls, with_returns, last),
    decreases s.len(),
{
    let class = CharClass::Except('\n');
    lemma_leading(s, class);
    let n = leading(s, class) as int;
    assert forall|i: int| 0 <= i < n implies s[i] != '\n' by {
        assert(class.has(s[i]));
    }
    if n == s.len() {
        let none = Seq::<Seq<char>>::empty();
        let nothing = Seq::<bool>::empty();
        assert(s =~= ended_lines(none, nothing) + s);
        assert(is_layout(s, none, nothing, s));
    } else {
        let line = s.take(n);
        let rest = s.skip(n + 1);
        every_text_has_lines(rest);
        let (more, returned, last) = choose|
            ls: Seq<Seq<char>>,
            with_returns: Seq<bool>,
            last: Seq<char>,
        | #[trigger]
            is_layout(rest, ls, with_returns, last);
        let with_return = line.len() > 0 && line.last() == '\r';
        let l = if with_return {
            line.drop_last()
        } else {
            line
        };
        let ls = seq![l] + more;
        let with_returns = seq![with_return] + returned;
        assert(ls.drop_first() =~= more);
        assert(with_returns.drop_first() =~= returned);
        assert(can_be_ended(l, with_return));
        assert forall|i: int| 0 <= i < ls.len() implies can_be_ended(
            #[trigger] ls[i],
            with_returns[i],
        ) by {
            if i > 0 {
                assert(can_be_ended(more[i - 1], returned[i - 1]));
            }
        }
        assert(s[n] == '\n');
        assert(s =~= line + seq!['\n'] + rest);
        if with_return {
            assert(line =~= l + seq!['\r']);
            assert(s =~= l + seq!['\r', '\n'] + rest);
        }
        assert(s =~= ended_lines(ls, with_returns) + last);
        assert(is_layout(s, ls, with_returns, last));
    }
}

/// Whether the text is `middle` with white space at its two ends.
pub open spec fn is_framed(
    s: Seq<char>,
    front: Seq<char>,
    middle: Seq<char>,
    back: Seq<char>,
) -> bool {
    &&& s == front + middle + back
    &&& is_white(front)
    &&& is_white(back)
    &&& middle.len() > 0 ==> has_visible_ends(middle)
}

/// Every text is one with visible ends, or an empty one, between white space.
pub proof fn every_text_is_framed(s: Seq<char>)
    ensures
        exists|front: Seq<char>, middle: Seq<char>, back: Seq<char>| #[trigger]
            is_framed(s, front, middle, back),
{
    lemma_leading(s, CharClass::White);
    let w = leading(s, CharClass::White) as int;
    let front = s.take(w);
    let t = s.skip(w);
    lemma_trailing(t, CharClass::White);
    let k = trailing(t, CharClass::White) as int;
    let middle = t.take(t.len() - k);
    let back = t.skip(t.len() - k);
    assert forall|i: int| 0 <= i < front.len() implies is_whitespace(#[trigger] front[i]) by {
        assert(CharClass::White.has(s[i]));
    }
    assert forall|i: int| 0 <= i < back.len() implies is_whitespace(#[trigger] back[i]) by {
        assert(CharClass::White.has(t[t.len() - k + i]));
    }
    assert(s =~= front + middle + back);
    if middle.len() > 0 {
        assert(middle[0] == s[w]);
        assert(middle[middle.len() - 1] == t[t.len() - k - 1]);
    }
    assert(is_framed(s, front, middle, back));
}

/// Whether the text is these parts with the character between them.
pub open spec fn has_parts(s: Seq<char>, parts: Seq<Seq<char>>, c: char) -> bool {
    &&& parts.len() > 0
    &&& forall|i: int| 0 <= i < parts.len() ==> is_without(#[trigger] parts[i], c)
    &&& s == parted_by(parts, c)
}

/// Every text has its parts between the places of a character.
pub proof fn every_text_has_parts(s: Seq<char>, c: char)
    ensures
        exists|parts: Seq<Seq<char>>| #[trigger] has_parts(s, parts, c),
    decreases s.len(),
{
    let class = CharClass::Except(c);
    lemma_leading(s, class);
    let n = leading(s, class) as int;
    let first = s.take(n);
    assert forall|i: int| 0 <= i < first.len() implies first[i] != c by {
        assert(class.has(s[i]));
    }
    if n == s.len() {
        assert(s =~= first);
        assert(has_parts(s, seq![s], c));
    } else {
        let rest = s.skip(n + 1);
        every_text_has_parts(rest, c);
        let more = choose|parts: Seq<Seq<char>>| #[trigger] has_parts(rest, parts, c);
        let parts = seq![first] + more;
        assert(parts.drop_first() =~= more);
        assert forall|i: int| 0 <= i < parts.len() implies is_without(#[trigger] parts[i], c) by {
            if i > 0 {
                assert(is_without(more[i - 1], c));
            }
        }
        assert(s[n] == c);
        assert(s =~= first + seq![c] + rest);
        assert(has_parts(s, parts, c));
    }
}

/// Every path has a last part.
pub proof fn every_path_has_a_last_part(path: Seq<char>)
    ensures
        exists|dir: Seq<char>, base: Seq<char>| #[trigger] is_last_part(path, dir, base),
{
    let class = CharClass::Except('/');
    lemma_trailing(path, class);
    let n = trailing(path, class) as int;
    let base = path.skip(path.len() - n);
    assert forall|i: int| 0 <= i < base.len() implies base[i] != '/' by {
        assert(class.has(path[path.len() - n + i]));
    }
    if n == path.len() {
        assert(base =~= path);
        assert(is_last_part(path, seq![], base));
    } else {
        let dir = path.take(path.len() - n - 1);
        assert(path[path.len() - n - 1] == '/');
        assert(path =~= dir + seq!['/'] + base);
        assert(is_last_part(path, dir, base));
    }
}

} // verus!
