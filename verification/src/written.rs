//! How the fields of a JSON object are written, and that they are read as they
//! were written.
//!
//! The words of this module describe text alone. They are not used to define
//! what the reader does.
use crate::json::{
    balance, decimal_digits, digits_value, int_field, integer, lemma_decimal_digits, object_field,
    object_field_is_balanced, quoted, str_field, string_body, value_text,
};
use crate::text::{
    find, is_digit, is_whitespace, leading, lemma_find, lemma_find_is, lemma_leading_is, occurs_at,
    CharClass,
};
use vstd::prelude::*;

verus! {

/// Whether `part` stands in `s` at the place `i`.
pub open spec fn stands(s: Seq<char>, part: Seq<char>, i: int) -> bool {
    0 <= i && i + part.len() <= s.len() && s.subrange(i, i + part.len()) == part
}

/// The text between two double quotes.
pub open spec fn in_quotes(s: Seq<char>) -> Seq<char> {
    seq!['"'] + s + seq!['"']
}

/// Whether the text is made of white space, or empty.
pub open spec fn is_white(s: Seq<char>) -> bool {
    forall|i: int| 0 <= i < s.len() ==> is_whitespace(#[trigger] s[i])
}

/// Whether the text is `front`, the name in quotes, a colon, white space and
/// `value`, and this is the first place where the quoted name stands. Between
/// the name and the colon stands `gap`.
pub open spec fn writes(
    json: Seq<char>,
    key: Seq<char>,
    front: Seq<char>,
    gap: Seq<char>,
    white: Seq<char>,
    value: Seq<char>,
) -> bool {
    &&& json == front + in_quotes(key) + gap + seq![':'] + white + value
    &&& forall|j: int| 0 <= j < front.len() ==> !stands(json, in_quotes(key), j)
    &&& !gap.contains(':')
    &&& is_white(white)
    &&& value.len() > 0 ==> !is_whitespace(value[0])
}

/// Whether the first field of the name has the text `value` from its value on.
pub open spec fn has_value(json: Seq<char>, key: Seq<char>, value: Seq<char>) -> bool {
    exists|front: Seq<char>, gap: Seq<char>, white: Seq<char>| #[trigger]
        writes(json, key, front, gap, white, value)
}

/// Whether the text has no value for the name: the quoted name stands nowhere in
/// it, or no colon stands behind the first place where it does.
pub open spec fn has_no_value(json: Seq<char>, key: Seq<char>) -> bool {
    ||| forall|j: int| !stands(json, in_quotes(key), j)
    ||| exists|front: Seq<char>, gap: Seq<char>| #[trigger] ends_after_name(json, key, front, gap)
}

/// Whether the text is `front`, the quoted name and `gap`, without a colon in
/// `gap`, and this is the first place where the quoted name stands.
pub open spec fn ends_after_name(
    json: Seq<char>,
    key: Seq<char>,
    front: Seq<char>,
    gap: Seq<char>,
) -> bool {
    &&& json == front + in_quotes(key) + gap
    &&& forall|j: int| 0 <= j < front.len() ==> !stands(json, in_quotes(key), j)
    &&& !gap.contains(':')
}

/// How a character is written in a string literal.
pub enum Spelling {
    /// As itself.
    Plain,
    /// As a backslash and a letter that stands for it.
    Letter,
    /// As a backslash and itself.
    Slashed,
}

/// The character as it is written.
pub open spec fn written_char(c: char, spelling: Spelling) -> Seq<char> {
    match spelling {
        Spelling::Plain => seq![c],
        Spelling::Letter => if c == '\n' {
            seq!['\\', 'n']
        } else if c == '\t' {
            seq!['\\', 't']
        } else {
            seq!['\\', 'r']
        },
        Spelling::Slashed => seq!['\\', c],
    }
}

/// Whether the character can be written so: a quote and a backslash need a
/// backslash, three control characters have a letter, and these letters take no
/// backslash.
pub open spec fn can_be_written(c: char, spelling: Spelling) -> bool {
    match spelling {
        Spelling::Plain => c != '"' && c != '\\',
        Spelling::Letter => c == '\n' || c == '\t' || c == '\r',
        Spelling::Slashed => c != 'n' && c != 't' && c != 'r',
    }
}

/// The characters of a text written one after another, each in its
/// spelling.
pub open spec fn written_chars(s: Seq<char>, spellings: Seq<Spelling>) -> Seq<char>
    decreases s.len(),
{
    if s.len() == 0 {
        seq![]
    } else {
        written_char(s[0], spellings[0]) + written_chars(s.drop_first(), spellings.drop_first())
    }
}

/// Whether the text can be written with these backspellings.
pub open spec fn can_write(s: Seq<char>, spellings: Seq<Spelling>) -> bool {
    &&& s.len() == spellings.len()
    &&& forall|i: int| 0 <= i < s.len() ==> can_be_written(#[trigger] s[i], spellings[i])
}

/// Whether `text` starts with a string literal for `s`, and `rest` follows it.
pub open spec fn is_literal(
    text: Seq<char>,
    s: Seq<char>,
    spellings: Seq<Spelling>,
    rest: Seq<char>,
) -> bool {
    can_write(s, spellings) && text == in_quotes(written_chars(s, spellings)) + rest
}

/// Whether `text` starts with a string literal for `s`.
pub open spec fn starts_with_string(text: Seq<char>, s: Seq<char>) -> bool {
    exists|spellings: Seq<Spelling>, rest: Seq<char>| #[trigger]
        is_literal(text, s, spellings, rest)
}

/// Whether `text` starts no string, or one that is not closed: behind the opening
/// quote stands the literal for `s`, and a lone backslash at most.
pub open spec fn is_open_literal(text: Seq<char>, s: Seq<char>, spellings: Seq<Spelling>) -> bool {
    &&& can_write(s, spellings)
    &&& text == seq!['"'] + written_chars(s, spellings) || text == seq!['"'] + written_chars(
        s,
        spellings,
    ) + seq!['\\']
}

/// Whether `text` does not start with a string literal.
pub open spec fn starts_without_string(text: Seq<char>) -> bool {
    ||| text.len() == 0
    ||| text[0] != '"'
    ||| exists|s: Seq<char>, spellings: Seq<Spelling>| #[trigger]
        is_open_literal(text, s, spellings)
}

/// Whether the first field of the name holds the string.
pub open spec fn holds_string(json: Seq<char>, key: Seq<char>, s: Seq<char>) -> bool {
    exists|value: Seq<char>| #[trigger] has_value(json, key, value) && starts_with_string(value, s)
}

/// Whether the text has no field of the name, or its first one holds no string.
pub open spec fn holds_no_string(json: Seq<char>, key: Seq<char>) -> bool {
    ||| has_no_value(json, key)
    ||| exists|value: Seq<char>| #[trigger]
        has_value(json, key, value) && starts_without_string(value)
}

/// Whether the character is a decimal digit or a minus sign.
pub open spec fn is_numeric(c: char) -> bool {
    '0' <= c <= '9' || c == '-'
}

/// Whether `run` is the digits and minus signs that `text` starts with, and
/// `rest` is what follows them.
pub open spec fn is_run(text: Seq<char>, run: Seq<char>, rest: Seq<char>) -> bool {
    &&& text == run + rest
    &&& forall|i: int| 0 <= i < run.len() ==> is_numeric(#[trigger] run[i])
    &&& rest.len() > 0 ==> !is_numeric(rest[0])
}

/// Whether the text is the decimal digits of the integer, with these zeros in
/// front of them, and a minus sign in front of all for a negative one.
pub open spec fn is_padded(run: Seq<char>, zeros: Seq<char>, n: int) -> bool {
    &&& forall|i: int| 0 <= i < zeros.len() ==> zeros[i] == '0'
    &&& {
        ||| n >= 0 && run == zeros + decimal_digits(n as nat)
        ||| n <= 0 && run == seq!['-'] + zeros + decimal_digits((-n) as nat)
    }
}

/// Whether the text spells the integer.
pub open spec fn spells(run: Seq<char>, n: int) -> bool {
    exists|zeros: Seq<char>| #[trigger] is_padded(run, zeros, n)
}

/// Whether the digits and minus signs spell no integer: there is no digit, or a
/// minus sign that is not at the start.
pub open spec fn spells_none(run: Seq<char>) -> bool {
    ||| run.len() == 0
    ||| run == seq!['-']
    ||| exists|i: int| 0 < i < run.len() && run[i] == '-'
}

/// Whether `text` starts with the integer.
pub open spec fn starts_with_integer(text: Seq<char>, n: int) -> bool {
    exists|run: Seq<char>, rest: Seq<char>| #[trigger] is_run(text, run, rest) && spells(run, n)
}

/// Whether `text` starts with no integer.
pub open spec fn starts_without_integer(text: Seq<char>) -> bool {
    exists|run: Seq<char>, rest: Seq<char>| #[trigger] is_run(text, run, rest) && spells_none(run)
}

/// Whether the first field of the name holds the integer.
pub open spec fn holds_integer(json: Seq<char>, key: Seq<char>, n: int) -> bool {
    exists|value: Seq<char>| #[trigger] has_value(json, key, value) && starts_with_integer(value, n)
}

/// Whether the text has no field of the name, or its first one holds no integer.
pub open spec fn holds_no_integer(json: Seq<char>, key: Seq<char>) -> bool {
    ||| has_no_value(json, key)
    ||| exists|value: Seq<char>| #[trigger]
        has_value(json, key, value) && starts_without_integer(value)
}

/// Whether the text starts with a brace, and its braces are all closed at its
/// end and not before.
pub open spec fn is_closed_object(object: Seq<char>) -> bool {
    &&& object.len() > 0
    &&& object[0] == '{'
    &&& balance(object) == 0
    &&& forall|m: int| 0 < m < object.len() ==> balance(#[trigger] object.take(m)) > 0
}

/// Whether the first field of the name holds the object.
pub open spec fn holds_object(json: Seq<char>, key: Seq<char>, object: Seq<char>) -> bool {
    &&& is_closed_object(object)
    &&& exists|value: Seq<char>| #[trigger]
        has_value(json, key, value) && object.is_prefix_of(value)
}

/// Whether the text has no field of the name, or its first one starts with no
/// brace, or its braces are never all closed.
pub open spec fn holds_no_object(json: Seq<char>, key: Seq<char>) -> bool {
    ||| has_no_value(json, key)
    ||| exists|value: Seq<char>| #[trigger]
        has_value(json, key, value) && (value.len() == 0 || value[0] != '{' || forall|m: int|
            0 < m <= value.len() ==> balance(#[trigger] value.take(m)) > 0)
}

proof fn lemma_name(key: Seq<char>)
    ensures
        in_quotes(key) == quoted(key),
{
}

proof fn lemma_stands(s: Seq<char>, part: Seq<char>, i: int)
    ensures
        stands(s, part, i) == occurs_at(s, part, i),
{
    if 0 <= i && i + part.len() <= s.len() {
        assert(s.skip(i).subrange(0, part.len() as int) =~= s.subrange(i, i + part.len()));
    }
}

proof fn lemma_find_name(json: Seq<char>, key: Seq<char>, front: Seq<char>, more: Seq<char>)
    requires
        json == front + in_quotes(key) + more,
        forall|j: int| 0 <= j < front.len() ==> !stands(json, in_quotes(key), j),
    ensures
        find(json, in_quotes(key)) == Some(front.len()),
        json.skip((front.len() + in_quotes(key).len()) as int) == more,
{
    let name = in_quotes(key);
    assert(json.subrange(front.len() as int, (front.len() + name.len()) as int) =~= name);
    lemma_stands(json, name, front.len() as int);
    assert forall|j: int| 0 <= j < front.len() implies !occurs_at(json, name, j) by {
        lemma_stands(json, name, j);
    }
    lemma_find_is(json, name, front.len());
    assert(json.skip((front.len() + name.len()) as int) =~= more);
}

/// The value of a field is what was written as its value.
proof fn lemma_value(json: Seq<char>, key: Seq<char>, value: Seq<char>)
    requires
        has_value(json, key, value),
    ensures
        value_text(json, key) == Some(value),
{
    let (front, gap, white) = choose|front: Seq<char>, gap: Seq<char>, white: Seq<char>| #[trigger]
        writes(json, key, front, gap, white, value);
    let behind = gap + seq![':'] + white + value;
    lemma_name(key);
    assert(json =~= front + in_quotes(key) + behind);
    lemma_find_name(json, key, front, behind);
    assert forall|i: int| 0 <= i < gap.len() implies CharClass::Except(':').has(
        #[trigger] behind[i],
    ) by {
        assert(behind[i] == gap[i]);
    }
    assert(behind[gap.len() as int] == ':');
    lemma_leading_is(behind, CharClass::Except(':'), gap.len());
    let tail = white + value;
    assert(behind.skip(gap.len() as int + 1) =~= tail);
    assert forall|i: int| 0 <= i < white.len() implies CharClass::White.has(#[trigger] tail[i]) by {
        assert(tail[i] == white[i]);
    }
    if value.len() > 0 {
        assert(tail[white.len() as int] == value[0]);
    }
    lemma_leading_is(tail, CharClass::White, white.len());
    assert(tail.skip(white.len() as int) =~= value);
}

/// Where no value was written none is found.
proof fn lemma_no_value(json: Seq<char>, key: Seq<char>)
    requires
        has_no_value(json, key),
    ensures
        value_text(json, key) is None,
{
    let name = in_quotes(key);
    lemma_name(key);
    if forall|j: int| !stands(json, name, j) {
        lemma_find(json, name);
        if let Some(n) = find(json, name) {
            lemma_stands(json, name, n as int);
        }
    } else {
        let (front, gap) = choose|front: Seq<char>, gap: Seq<char>| #[trigger]
            ends_after_name(json, key, front, gap);
        lemma_find_name(json, key, front, gap);
        assert forall|i: int| 0 <= i < gap.len() implies CharClass::Except(':').has(
            #[trigger] gap[i],
        ) by {
            if gap[i] == ':' {
                assert(gap.contains(':'));
            }
        }
        lemma_leading_is(gap, CharClass::Except(':'), gap.len());
    }
}

proof fn lemma_written_tail(s: Seq<char>, spellings: Seq<Spelling>)
    requires
        can_write(s, spellings),
        s.len() > 0,
    ensures
        can_write(s.drop_first(), spellings.drop_first()),
{
    let t = s.drop_first();
    assert forall|i: int| 0 <= i < t.len() implies can_be_written(
        #[trigger] t[i],
        spellings.drop_first()[i],
    ) by {
        assert(can_be_written(s[i + 1], spellings[i + 1]));
    }
}

/// A string literal is read as the text that it was written for, whichever way
/// its characters are spelled, and whatever follows its closing quote.
pub proof fn literal_is_read_back(s: Seq<char>, spellings: Seq<Spelling>, rest: Seq<char>)
    requires
        can_write(s, spellings),
    ensures
        string_body(written_chars(s, spellings) + seq!['"'] + rest) == Some(s),
    decreases s.len(),
{
    let text = written_chars(s, spellings) + seq!['"'] + rest;
    if s.len() == 0 {
        assert(text[0] == '"');
        assert(s =~= seq![]);
    } else {
        let later = s.drop_first();
        let head = written_char(s[0], spellings[0]);
        assert(can_be_written(s[0], spellings[0]));
        lemma_written_tail(s, spellings);
        literal_is_read_back(later, spellings.drop_first(), rest);
        assert(text.skip(head.len() as int) =~= written_chars(later, spellings.drop_first())
            + seq!['"'] + rest);
        assert(text[0] == head[0]);
        if head.len() == 2 {
            assert(text[1] == head[1]);
        }
        assert(seq![s[0]] + later =~= s);
    }
}

/// A string literal that is not closed is not read.
pub proof fn open_literal_is_not_read(s: Seq<char>, spellings: Seq<Spelling>)
    requires
        can_write(s, spellings),
    ensures
        string_body(written_chars(s, spellings)) is None,
        string_body(written_chars(s, spellings) + seq!['\\']) is None,
    decreases s.len(),
{
    let text = written_chars(s, spellings);
    let more = text + seq!['\\'];
    if s.len() == 0 {
        assert(more[0] == '\\');
    } else {
        let head = written_char(s[0], spellings[0]);
        let tail = written_chars(s.drop_first(), spellings.drop_first());
        assert(can_be_written(s[0], spellings[0]));
        lemma_written_tail(s, spellings);
        open_literal_is_not_read(s.drop_first(), spellings.drop_first());
        assert(text.skip(head.len() as int) =~= tail);
        assert(more.skip(head.len() as int) =~= tail + seq!['\\']);
        assert(text[0] == head[0]);
        assert(more[0] == head[0]);
    }
}

/// A field that was written with a string is read as that string.
pub proof fn written_string_is_read(json: Seq<char>, key: Seq<char>, s: Seq<char>)
    requires
        holds_string(json, key, s),
    ensures
        str_field(json, key) == Some(s),
{
    let value = choose|value: Seq<char>| #[trigger]
        has_value(json, key, value) && starts_with_string(value, s);
    let (spellings, rest) = choose|spellings: Seq<Spelling>, rest: Seq<char>| #[trigger]
        is_literal(value, s, spellings, rest);
    lemma_value(json, key, value);
    literal_is_read_back(s, spellings, rest);
    assert(value[0] == '"');
    assert(value.skip(1) =~= written_chars(s, spellings) + seq!['"'] + rest);
}

/// Where no string was written none is read.
pub proof fn no_string_is_read_unwritten(json: Seq<char>, key: Seq<char>)
    requires
        holds_no_string(json, key),
    ensures
        str_field(json, key) is None,
{
    if has_no_value(json, key) {
        lemma_no_value(json, key);
    } else {
        let value = choose|value: Seq<char>| #[trigger]
            has_value(json, key, value) && starts_without_string(value);
        lemma_value(json, key, value);
        if value.len() > 0 && value[0] == '"' {
            let (s, spellings) = choose|s: Seq<char>, spellings: Seq<Spelling>| #[trigger]
                is_open_literal(value, s, spellings);
            open_literal_is_not_read(s, spellings);
            let text = written_chars(s, spellings);
            if value == seq!['"'] + text {
                assert(value.skip(1) =~= text);
            } else {
                assert(value.skip(1) =~= text + seq!['\\']);
            }
        }
    }
}

proof fn lemma_run(text: Seq<char>, run: Seq<char>, rest: Seq<char>)
    requires
        is_run(text, run, rest),
    ensures
        text.take(leading(text, CharClass::Numeric) as int) == run,
{
    assert forall|i: int| 0 <= i < run.len() implies CharClass::Numeric.has(#[trigger] text[i]) by {
        assert(text[i] == run[i]);
    }
    if rest.len() > 0 {
        assert(text[run.len() as int] == rest[0]);
    }
    lemma_leading_is(text, CharClass::Numeric, run.len());
    assert(text.take(run.len() as int) =~= run);
}

/// An integer is read from its digits, whatever zeros stand in front of them,
/// where it is within the bounds of `i64`. Beyond them nothing is read, nor from
/// a text without a digit or with a minus sign in it that is not at the start.
pub proof fn integers_are_read_strictly(run: Seq<char>, n: int)
    ensures
        spells(run, n) && -0x8000_0000_0000_0000 <= n <= 0x7fff_ffff_ffff_ffff ==> integer(run)
            == Some(n as i64),
        spells(run, n) && !(-0x8000_0000_0000_0000 <= n <= 0x7fff_ffff_ffff_ffff) ==> integer(
            run,
        ) is None,
        spells_none(run) ==> integer(run) is None,
{
    if spells(run, n) {
        let zeros = choose|zeros: Seq<char>| #[trigger] is_padded(run, zeros, n);
        let size = if n < 0 {
            (-n) as nat
        } else {
            n as nat
        };
        let d = decimal_digits(size);
        let all = zeros + d;
        lemma_decimal_digits(size);
        lemma_zeros(zeros, d);
        assert forall|i: int| 0 <= i < all.len() implies is_digit(#[trigger] all[i]) by {
            if i < zeros.len() {
                assert(all[i] == zeros[i]);
            } else {
                assert(all[i] == d[i - zeros.len()]);
            }
        }
        assert(is_digit(all[0]));
        if run != all {
            assert(run.skip(1) =~= all);
        }
    }
    if spells_none(run) {
        if run.len() == 0 || run == seq!['-'] {
            assert(run.len() > 0 ==> run.skip(1) =~= seq![]);
        } else {
            let i = choose|i: int| 0 < i < run.len() && run[i] == '-';
            assert(!is_digit(run[i]));
            assert(run.skip(1)[i - 1] == run[i]);
        }
    }
}

/// A field that was written with an integer is read as that integer, where it is
/// within the bounds of `i64`, and is not read where it is beyond them.
pub proof fn written_integer_is_read(json: Seq<char>, key: Seq<char>, n: int)
    requires
        holds_integer(json, key, n),
    ensures
        i64::MIN <= n <= i64::MAX ==> int_field(json, key) == Some(n as i64),
        !(i64::MIN <= n <= i64::MAX) ==> int_field(json, key) is None,
{
    let value = choose|value: Seq<char>| #[trigger]
        has_value(json, key, value) && starts_with_integer(value, n);
    let (run, rest) = choose|run: Seq<char>, rest: Seq<char>| #[trigger]
        is_run(value, run, rest) && spells(run, n);
    lemma_value(json, key, value);
    lemma_run(value, run, rest);
    integers_are_read_strictly(run, n);
}

/// Where no integer was written none is read.
pub proof fn no_integer_is_read_unwritten(json: Seq<char>, key: Seq<char>)
    requires
        holds_no_integer(json, key),
    ensures
        int_field(json, key) is None,
{
    if has_no_value(json, key) {
        lemma_no_value(json, key);
    } else {
        let value = choose|value: Seq<char>| #[trigger]
            has_value(json, key, value) && starts_without_integer(value);
        let (run, rest) = choose|run: Seq<char>, rest: Seq<char>| #[trigger]
            is_run(value, run, rest) && spells_none(run);
        lemma_value(json, key, value);
        lemma_run(value, run, rest);
        integers_are_read_strictly(run, 0);
    }
}

proof fn lemma_zeros(zeros: Seq<char>, d: Seq<char>)
    requires
        forall|i: int| 0 <= i < zeros.len() ==> zeros[i] == '0',
    ensures
        digits_value(zeros + d) == digits_value(d),
    decreases d.len(), zeros.len(),
{
    let all = zeros + d;
    if d.len() > 0 {
        lemma_zeros(zeros, d.drop_last());
        assert(all.drop_last() =~= zeros + d.drop_last());
    } else if zeros.len() > 0 {
        let less = zeros.drop_last();
        lemma_zeros(less, d);
        assert(all =~= zeros);
        assert(less + d =~= less);
        assert(d =~= seq![]);
        assert(all.drop_last() =~= less);
        assert(all.last() == '0');
    } else {
        assert(all =~= d);
    }
}

/// A field that was written with an object is read as that object.
pub proof fn written_object_is_read(json: Seq<char>, key: Seq<char>, object: Seq<char>)
    requires
        holds_object(json, key, object),
    ensures
        object_field(json, key) == Some(object),
{
    let value = choose|value: Seq<char>| #[trigger]
        has_value(json, key, value) && object.is_prefix_of(value);
    lemma_value(json, key, value);
    object_field_is_balanced(json, key);
    assert(object == value.subrange(0, object.len() as int));
    assert(value.take(object.len() as int) =~= object);
    assert(value[0] == object[0]);
    if let Some(found) = object_field(json, key) {
        assert(found =~= value.take(found.len() as int));
        if found.len() < object.len() {
            assert(object.take(found.len() as int) =~= found);
        } else if object.len() < found.len() {
            assert(found.take(object.len() as int) =~= object);
        }
        assert(found =~= object);
    }
}

/// Where no object was written none is read.
pub proof fn no_object_is_read_unwritten(json: Seq<char>, key: Seq<char>)
    requires
        holds_no_object(json, key),
    ensures
        object_field(json, key) is None,
{
    if has_no_value(json, key) {
        lemma_no_value(json, key);
    } else {
        let value = choose|value: Seq<char>| #[trigger]
            has_value(json, key, value) && (value.len() == 0 || value[0] != '{' || forall|m: int|
                0 < m <= value.len() ==> balance(#[trigger] value.take(m)) > 0);
        lemma_value(json, key, value);
        object_field_is_balanced(json, key);
        if let Some(found) = object_field(json, key) {
            assert(value.take(found.len() as int) =~= found);
        }
    }
}

} // verus!
